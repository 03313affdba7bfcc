//! A fixed-width delimited-text table: every line, the header line included,
//! holds exactly `WIDTH` comma-separated fields. Fields are not quoted or
//! escaped, so a field holding a separator is a known limitation of the
//! format, not something the codec repairs.
use crate::text::{
    join_seq, join_strs, lemma_join_split, lemma_lines_join, lemma_lines_no_nl, lines_seq,
    split_lines, split_seq, split_str, strip_cr,
};
use vstd::prelude::*;

verus! {

/// Errors that occur while parsing table text.
#[derive(Debug, Clone, PartialEq, Eq)]
pub enum Error {
    /// The text held no line at all.
    NoHeaders,
    /// A line's field count diverges from the table width; the first
    /// offending line is reported, counting from zero.
    MismatchedRowLength { line: usize, actual: usize, expected: usize },
}

/// A table of `WIDTH`-field rows kept under a `WIDTH`-field header line.
#[derive(Debug, Clone, PartialEq)]
pub struct Csv<const WIDTH: usize> {
    headers: Vec<String>,
    lines: Vec<Vec<String>>,
}

impl<const WIDTH: usize> Csv<WIDTH> {
    /// The header fields.
    pub closed spec fn spec_headers(&self) -> Seq<Seq<char>> {
        self.headers.deep_view()
    }

    /// The rows, each a sequence of fields.
    pub closed spec fn spec_rows(&self) -> Seq<Seq<Seq<char>>> {
        self.lines.deep_view()
    }

    /// Every row, the headers included, holds exactly `WIDTH` fields.
    pub open spec fn wf(&self) -> bool {
        &&& self.spec_headers().len() == WIDTH as int
        &&& forall|i: int|
            0 <= i < self.spec_rows().len() ==> (#[trigger] self.spec_rows()[i]).len()
                == WIDTH as int
    }

    /// Whether the text parses as a table of this width: at least one line,
    /// and every line splits into exactly `WIDTH` fields.
    pub open spec fn parses(s: Seq<char>) -> bool {
        &&& lines_seq(s).len() > 0
        &&& forall|i: int|
            0 <= i < lines_seq(s).len() ==> split_seq(#[trigger] lines_seq(s)[i], ',').len()
                == WIDTH as int
    }

    /// The header fields the text parses to: the fields of its first line.
    pub open spec fn parsed_headers(s: Seq<char>) -> Seq<Seq<char>> {
        split_seq(lines_seq(s)[0], ',')
    }

    /// The rows the text parses to: the fields of every later line.
    pub open spec fn parsed_rows(s: Seq<char>) -> Seq<Seq<Seq<char>>> {
        Seq::new((lines_seq(s).len() - 1) as nat, |i: int| split_seq(lines_seq(s)[i + 1], ','))
    }

    /// The lines a table serializes to: the joined header fields, then each
    /// row's joined fields.
    pub open spec fn table_lines(headers: Seq<Seq<char>>, rows: Seq<Seq<Seq<char>>>) -> Seq<
        Seq<char>,
    > {
        seq![join_seq(headers, ',')] + Seq::new(rows.len(), |i: int| join_seq(rows[i], ','))
    }

    /// The text a table serializes to: its lines joined by newlines.
    pub open spec fn table_text(headers: Seq<Seq<char>>, rows: Seq<Seq<Seq<char>>>) -> Seq<char> {
        join_seq(Self::table_lines(headers, rows), '\n')
    }

    /// Creates a new table with the given headers and no rows.
    pub fn new(headers: &[String; WIDTH]) -> (r: Self)
        ensures
            r.wf(),
            r.spec_headers() == headers.deep_view(),
            r.spec_rows() == Seq::<Seq<Seq<char>>>::empty(),
    {
        let mut hs: Vec<String> = Vec::new();
        let mut i: usize = 0;
        while i < WIDTH
            invariant
                hs.len() == i,
                i <= WIDTH,
                forall|k: int| 0 <= k < i ==> hs.deep_view()[k] == headers.deep_view()[k],
            decreases WIDTH - i,
        {
            let ghost old_hs = hs.deep_view();
            hs.push(vstd::array::array_index_get(headers, i).clone());
            proof {
                assert(hs.deep_view() =~= old_hs.push(headers@[i as int]@));
            }
            i += 1;
        }
        let r = Csv { headers: hs, lines: Vec::new() };
        proof {
            assert(r.spec_headers() =~= headers.deep_view());
            assert(r.spec_rows() =~= Seq::<Seq<Seq<char>>>::empty());
        }
        r
    }

    /// Attempts to parse a table from text. Succeeds exactly when every line
    /// has `WIDTH` fields and there is at least one line; the first line
    /// becomes the headers and the rest become the rows.
    pub fn from_string(s: String) -> (r: Result<Self, Error>)
        ensures
            match r {
                Ok(c) => {
                    &&& Self::parses(s@)
                    &&& c.wf()
                    &&& c.spec_headers() == Self::parsed_headers(s@)
                    &&& c.spec_rows() == Self::parsed_rows(s@)
                },
                Err(Error::NoHeaders) => lines_seq(s@).len() == 0,
                Err(Error::MismatchedRowLength { line, actual, expected }) => {
                    &&& 0 <= line < lines_seq(s@).len()
                    &&& split_seq(lines_seq(s@)[line as int], ',').len() != WIDTH as int
                    &&& actual == split_seq(lines_seq(s@)[line as int], ',').len()
                    &&& expected == WIDTH
                    &&& forall|j: int|
                        0 <= j < line ==> split_seq(#[trigger] lines_seq(s@)[j], ',').len()
                            == WIDTH as int
                },
            },
    {
        let all = split_lines(s.as_str());
        let mut rows: Vec<Vec<String>> = Vec::new();
        let mut idx: usize = 0;
        while idx < all.len()
            invariant
                all.deep_view() == lines_seq(s@),
                rows.len() == idx,
                idx <= all.len(),
                forall|j: int|
                    0 <= j < idx ==> rows.deep_view()[j] == split_seq(
                        #[trigger] lines_seq(s@)[j],
                        ',',
                    ),
                forall|j: int|
                    0 <= j < idx ==> split_seq(#[trigger] lines_seq(s@)[j], ',').len()
                        == WIDTH as int,
            decreases all.len() - idx,
        {
            let fields = split_str(all[idx].as_str(), ',');
            if fields.len() != WIDTH {
                return Err(
                    Error::MismatchedRowLength { line: idx, actual: fields.len(), expected: WIDTH },
                );
            }
            let ghost old_rows = rows.deep_view();
            rows.push(fields);
            proof {
                assert(rows.deep_view() =~= old_rows.push(split_seq(lines_seq(s@)[idx as int], ',')));
            }
            idx += 1;
        }
        if rows.len() == 0 {
            return Err(Error::NoHeaders);
        }
        let ghost whole = rows.deep_view();
        let headers = rows.remove(0);
        let r = Csv { headers, lines: rows };
        proof {
            assert(r.spec_headers() == whole[0]);
            assert(whole[0] == split_seq(lines_seq(s@)[0], ','));
            assert(r.spec_rows() =~= whole.drop_first());
            assert(r.spec_rows() =~= Self::parsed_rows(s@));
            assert forall|i: int| 0 <= i < r.spec_rows().len() implies
                (#[trigger] r.spec_rows()[i]).len() == WIDTH as int by {
                assert(r.spec_rows()[i] == split_seq(lines_seq(s@)[i + 1], ','));
            }
            assert(r.wf());
        }
        Ok(r)
    }

    /// The headers of the table.
    pub fn headers(&self) -> (r: &Vec<String>)
        ensures
            r.deep_view() == self.spec_headers(),
    {
        &self.headers
    }

    /// The rows of the table.
    pub fn values(&self) -> (r: &Vec<Vec<String>>)
        ensures
            r.deep_view() == self.spec_rows(),
    {
        &self.lines
    }

    /// Appends one row of exactly the table's width.
    pub fn append(&mut self, item: [String; WIDTH])
        ensures
            final(self).spec_headers() == old(self).spec_headers(),
            final(self).spec_rows() == old(self).spec_rows().push(item.deep_view()),
            old(self).wf() ==> final(self).wf(),
    {
        let mut row: Vec<String> = Vec::new();
        let mut i: usize = 0;
        while i < WIDTH
            invariant
                row.len() == i,
                i <= WIDTH,
                forall|k: int| 0 <= k < i ==> row.deep_view()[k] == item.deep_view()[k],
            decreases WIDTH - i,
        {
            let ghost old_row = row.deep_view();
            row.push(vstd::array::array_index_get(&item, i).clone());
            proof {
                assert(row.deep_view() =~= old_row.push(item@[i as int]@));
            }
            i += 1;
        }
        let ghost old_rows = self.spec_rows();
        self.lines.push(row);
        proof {
            assert(row.deep_view() =~= item.deep_view());
            assert(self.spec_rows() =~= old_rows.push(item.deep_view()));
        }
    }

    /// Serializes the table: the header line, then one line per row, fields
    /// joined by commas and lines joined by newlines.
    pub fn to_string(&self) -> (r: String)
        ensures
            r@ == Self::table_text(self.spec_headers(), self.spec_rows()),
    {
        proof {
            reveal_strlit(",");
            reveal_strlit("\n");
        }
        let mut joined: Vec<String> = Vec::new();
        joined.push(join_strs(&self.headers, ","));
        let mut i: usize = 0;
        while i < self.lines.len()
            invariant
                joined.len() == i + 1,
                i <= self.lines.len(),
                joined.deep_view()[0] == join_seq(self.spec_headers(), ','),
                forall|k: int|
                    0 <= k < i ==> joined.deep_view()[k + 1] == join_seq(
                        #[trigger] self.spec_rows()[k],
                        ',',
                    ),
            decreases self.lines.len() - i,
        {
            proof {
                reveal_strlit(",");
            }
            let ghost old_joined = joined.deep_view();
            joined.push(join_strs(&self.lines[i], ","));
            proof {
                assert(joined.deep_view() =~= old_joined.push(
                    join_seq(self.spec_rows()[i as int], ','),
                ));
            }
            i += 1;
        }
        let r = join_strs(&joined, "\n");
        proof {
            assert(joined.deep_view() =~= Self::table_lines(self.spec_headers(), self.spec_rows()));
        }
        r
    }

    /// Round trip: parsing the serialization of a parsed table gives the
    /// same headers and rows back. The law holds for every parsed text whose
    /// last line is nonempty and whose other lines do not end in a carriage
    /// return once parsed; outside that, the serialization drops a final
    /// empty line or a carriage return that the line separator had protected.
    pub proof fn lemma_parse_serialize_parse(s: Seq<char>)
        requires
            Self::parses(s),
            lines_seq(s).last().len() > 0,
            forall|i: int|
                0 <= i < lines_seq(s).len() - 1 ==> strip_cr(#[trigger] lines_seq(s)[i])
                    == lines_seq(s)[i],
        ensures
            Self::parses(Self::table_text(Self::parsed_headers(s), Self::parsed_rows(s))),
            Self::parsed_headers(Self::table_text(Self::parsed_headers(s), Self::parsed_rows(s)))
                == Self::parsed_headers(s),
            Self::parsed_rows(Self::table_text(Self::parsed_headers(s), Self::parsed_rows(s)))
                == Self::parsed_rows(s),
    {
        let ls = lines_seq(s);
        let h = Self::parsed_headers(s);
        let rows = Self::parsed_rows(s);
        let pieces = Self::table_lines(h, rows);
        assert forall|i: int| 0 <= i < pieces.len() implies pieces[i] == ls[i] by {
            if i == 0 {
                lemma_join_split(ls[0], ',');
            } else {
                assert(rows[i - 1] == split_seq(ls[i], ','));
                lemma_join_split(ls[i], ',');
            }
        }
        assert(pieces =~= ls);
        lemma_lines_no_nl(s);
        lemma_lines_join(ls);
        let t = Self::table_text(h, rows);
        assert(t == join_seq(ls, '\n'));
        assert(lines_seq(t) == ls);
        assert(Self::parsed_rows(t) =~= rows);
    }
}

} // verus!
