//! The description database: the record a database line parses to, the store
//! of records in file order, and the regex search over their descriptions.
use vstd::prelude::*;

use crate::rx;
use crate::text::{
    char_from_u32, find_char, hex_field_ok, hex_field_value, lemma_index_of_first_absent,
    lemma_index_of_first_is, lower_char, lower_seq, parse_hex_u32, to_lower, trim_spec, trim_str,
};

verus! {

/// The mathematical content of one stored record: a code point and the
/// lower-cased description text.
#[verifier::ext_equal]
pub ghost struct Record {
    pub code: u32,
    pub description: Seq<char>,
}

/// One parsed database line: a code point and its lower-cased description.
pub struct UnicodeDescription {
    pub code: u32,
    pub description: String,
}

impl View for UnicodeDescription {
    type V = Record;

    open spec fn view(&self) -> Record {
        Record { code: self.code, description: self.description@ }
    }
}

/// What a database line parses to, if anything: the text before the first
/// `;` must read as a base-16 code once trimmed, a `#` must follow the `;`,
/// and the description is everything after that `#`, trimmed and
/// lower-cased. Any other line parses to nothing.
pub open spec fn parse_line_spec(line: Seq<char>) -> Option<Record> {
    match line.index_of_first(';') {
        None => None,
        Some(i) => {
            let rem = line.skip(i + 1);
            match rem.index_of_first('#') {
                None => None,
                Some(j) => {
                    let hex_field = trim_spec(line.take(i));
                    if hex_field_ok(hex_field) {
                        Some(
                            Record {
                                code: hex_field_value(hex_field),
                                description: lower_seq(trim_spec(rem.skip(j + 1))),
                            },
                        )
                    } else {
                        None
                    }
                },
            }
        },
    }
}

/// `parse_line_spec` as a function value, for mapping over lines.
pub open spec fn parse_fn() -> spec_fn(Seq<char>) -> Option<Record> {
    |l: Seq<char>| parse_line_spec(l)
}

/// The records of a sequence of lines, in line order, unparseable lines
/// dropped.
pub open spec fn parsed_records(lines: Seq<Seq<char>>) -> Seq<Record> {
    lines.filter_map(parse_fn())
}

/// Whether a search with `pattern` selects this record: its description has
/// a match and its code is a Unicode scalar value.
pub open spec fn is_hit(pattern: Seq<char>, r: Record) -> bool {
    rx::regex_match(pattern, r.description) && vstd::utf8::is_scalar(r.code)
}

/// The character a selected record contributes.
pub open spec fn hit_char(r: Record) -> char {
    (r.code as char)
}

/// What one record contributes to a search: its character if selected,
/// nothing otherwise.
pub open spec fn hit_fn(pattern: Seq<char>) -> spec_fn(Record) -> Option<char> {
    |r: Record|
        if is_hit(pattern, r) {
            Some(hit_char(r))
        } else {
            None
        }
}

/// The characters a search returns: one per selected record, in record
/// order, duplicates kept.
pub open spec fn search_results(records: Seq<Record>, pattern: Seq<char>) -> Seq<char> {
    records.filter_map(hit_fn(pattern))
}

/// Law: a well-formed line `<hex> ; <mid> # <desc>` — no `;` inside the
/// code field, no `#` inside the discarded middle field, and a code field
/// that reads as base-16 once trimmed — parses to exactly that code and the
/// trimmed, lower-cased description.
pub proof fn lemma_parse_line_well_formed(hex: Seq<char>, mid: Seq<char>, desc: Seq<char>)
    requires
        forall|j: int| 0 <= j < hex.len() ==> hex[j] != ';',
        forall|j: int| 0 <= j < mid.len() ==> mid[j] != '#',
        hex_field_ok(trim_spec(hex)),
    ensures
        parse_line_spec(hex + seq![';'] + mid + seq!['#'] + desc) == Some(
            Record {
                code: hex_field_value(trim_spec(hex)),
                description: lower_seq(trim_spec(desc)),
            },
        ),
{
    let line = hex + seq![';'] + mid + seq!['#'] + desc;
    assert(line[hex.len() as int] == ';');
    assert(forall|j: int| 0 <= j < hex.len() ==> line[j] == hex[j]);
    lemma_index_of_first_is(line, ';', hex.len() as int);
    let rem = line.skip(hex.len() as int + 1);
    assert(rem =~= mid + seq!['#'] + desc);
    assert(rem[mid.len() as int] == '#');
    assert(forall|j: int| 0 <= j < mid.len() ==> rem[j] == mid[j]);
    lemma_index_of_first_is(rem, '#', mid.len() as int);
    assert(line.take(hex.len() as int) =~= hex);
    assert(rem.skip(mid.len() as int + 1) =~= desc);
}

/// Law: a line with no `;`, with no `#` after the first `;`, or whose code
/// field does not read as base-16 once trimmed, parses to nothing.
pub proof fn lemma_parse_line_rejected(line: Seq<char>)
    ensures
        line.index_of_first(';') is None ==> parse_line_spec(line) is None,
        line.index_of_first(';') matches Some(i) && line.skip(i + 1).index_of_first('#') is None
            ==> parse_line_spec(line) is None,
        line.index_of_first(';') matches Some(i) && !hex_field_ok(trim_spec(line.take(i)))
            ==> parse_line_spec(line) is None,
{
}

/// Law: descriptions are normalized at load time — a record parsed from a
/// line carries no ASCII upper-case letter in its description. A pattern of
/// lower-case ASCII letters therefore matches regardless of the letter case
/// the source file used.
pub proof fn lemma_description_lower_cased(line: Seq<char>)
    requires
        parse_line_spec(line) is Some,
    ensures
        forall|j: int|
            0 <= j < parse_line_spec(line).unwrap().description.len() ==> !(65 <= #[trigger] (
            parse_line_spec(line).unwrap().description[j] as u32) <= 90),
{
    let d = parse_line_spec(line).unwrap().description;
    let i = line.index_of_first(';').unwrap();
    let rem = line.skip(i + 1);
    let h = rem.index_of_first('#').unwrap();
    let t = trim_spec(rem.skip(h + 1));
    assert(d == lower_seq(t));
    assert forall|j: int| 0 <= j < d.len() implies !(65 <= (#[trigger] d[j] as u32) <= 90) by {
        assert(d[j] == lower_char(t[j]));
        let c = t[j];
        if 65 <= c as u32 && c as u32 <= 90 {
            assert(lower_char(c) as u32 == c as u32 + 32);
        }
    }
}

/// Law: a search keeps file order and duplicates — its result is exactly
/// the selected records of the store, in store order, each mapped to its
/// character.
pub proof fn lemma_search_in_order(records: Seq<Record>, pattern: Seq<char>)
    ensures
        search_results(records, pattern) == records.filter(|r: Record| is_hit(pattern, r))
            .map_values(|r: Record| hit_char(r)),
    decreases records.len(),
{
    reveal(Seq::filter);
    let hits = records.filter(|r: Record| is_hit(pattern, r));
    if records.len() == 0 {
        assert(search_results(records, pattern) =~= hits.map_values(|r: Record| hit_char(r)));
    } else {
        let rest = records.drop_last();
        let last = records.last();
        lemma_search_in_order(rest, pattern);
        assert(search_results(records, pattern) =~= hits.map_values(|r: Record| hit_char(r)));
    }
}

/// Law: a pattern whose regex matches no stored description yields the
/// empty result — not an error, which a search reports only for a pattern
/// that does not compile.
pub proof fn lemma_search_no_match_empty(records: Seq<Record>, pattern: Seq<char>)
    requires
        forall|k: int|
            0 <= k < records.len() ==> !rx::regex_match(
                pattern,
                (#[trigger] records[k]).description,
            ),
    ensures
        search_results(records, pattern) == Seq::<char>::empty(),
    decreases records.len(),
{
    if records.len() > 0 {
        lemma_search_no_match_empty(records.drop_last(), pattern);
        assert(search_results(records, pattern) =~= Seq::<char>::empty());
    }
}

/// The error a search reports when the pattern does not compile.
#[derive(Debug)]
pub struct PatternError {
    message: String,
}

impl View for PatternError {
    type V = Seq<char>;

    closed spec fn view(&self) -> Seq<char> {
        self.message@
    }
}

impl PatternError {
    /// The regex crate's description of what is wrong with the pattern.
    pub fn message(&self) -> (r: &String)
        ensures
            r@ == self@,
    {
        &self.message
    }

    pub(crate) fn from_regex_error(e: regex::Error) -> PatternError {
        PatternError { message: rx::regex_error_text(&e) }
    }
}

/// The description database: records in the order their lines were read.
pub struct UnicodeDB {
    descriptions: Vec<UnicodeDescription>,
}

impl View for UnicodeDB {
    type V = Seq<Record>;

    closed spec fn view(&self) -> Seq<Record> {
        self.descriptions@.map_values(|d: UnicodeDescription| d@)
    }
}

impl UnicodeDB {
    /// An empty database.
    pub fn new() -> (r: Self)
        ensures
            r@ == Seq::<Record>::empty(),
    {
        let r = UnicodeDB { descriptions: Vec::new() };
        proof {
            assert(r@ =~= Seq::<Record>::empty());
        }
        r
    }

    /// Parses one database line.
    pub fn parse_line(line: &str) -> (r: Option<UnicodeDescription>)
        ensures
            r is Some <==> parse_line_spec(line@) is Some,
            r is Some ==> r.unwrap()@ == parse_line_spec(line@).unwrap(),
    {
        let n = line.unicode_len();
        let semi = match find_char(line, ';') {
            Some(i) => i,
            None => {
                proof {
                    lemma_index_of_first_absent(line@, ';');
                }
                return None;
            },
        };
        proof {
            lemma_index_of_first_is(line@, ';', semi as int);
        }
        let rem = line.substring_char(semi + 1, n);
        let rem_n = rem.unicode_len();
        let hash = match find_char(rem, '#') {
            Some(j) => j,
            None => {
                proof {
                    lemma_index_of_first_absent(rem@, '#');
                }
                return None;
            },
        };
        proof {
            lemma_index_of_first_is(rem@, '#', hash as int);
        }
        let hex_field = trim_str(line.substring_char(0, semi));
        let code = match parse_hex_u32(hex_field) {
            Some(v) => v,
            None => {
                return None;
            },
        };
        let description = to_lower(trim_str(rem.substring_char(hash + 1, rem_n)));
        Some(UnicodeDescription { code, description })
    }

    /// Parses each line in order and appends the records of those that
    /// parse; lines that do not parse are dropped.
    pub fn parse_database(&mut self, lines: &Vec<String>)
        ensures
            final(self)@ == old(self)@ + parsed_records(lines.deep_view()),
    {
        let ghost init = old(self)@;
        let n = lines.len();
        let mut k: usize = 0;
        while k < n
            invariant
                n == lines@.len(),
                k <= n,
                self@ == init + parsed_records(lines.deep_view().take(k as int)),
            decreases n - k,
        {
            proof {
                lines.deep_view().lemma_filter_map_take_succ(parse_fn(), k as int);
            }
            match Self::parse_line(lines[k].as_str()) {
                Some(d) => {
                    let ghost pre = self@;
                    let ghost dd = d@;
                    self.descriptions.push(d);
                    proof {
                        assert(self@ =~= pre.push(dd));
                        assert(self@ =~= init + parsed_records(
                            lines.deep_view().take(k + 1),
                        ));
                    }
                },
                None => {
                    proof {
                        assert(self@ =~= init + parsed_records(
                            lines.deep_view().take(k + 1),
                        ));
                    }
                },
            }
            k = k + 1;
        }
        proof {
            assert(lines.deep_view().take(n as int) =~= lines.deep_view());
        }
    }

    /// Compiles the pattern and returns the character of each record whose
    /// description has a match, in record order; fails exactly when the
    /// pattern does not compile.
    pub fn search(&self, s: &str) -> (r: Result<Vec<char>, PatternError>)
        ensures
            r is Ok <==> rx::is_valid_regex(s@),
            r is Ok ==> r.unwrap()@ == search_results(self@, s@),
    {
        let re = match rx::regex_new(s) {
            Ok(re) => re,
            Err(e) => {
                return Err(PatternError::from_regex_error(e));
            },
        };
        let mut vs: Vec<char> = Vec::new();
        let n = self.descriptions.len();
        let mut k: usize = 0;
        while k < n
            invariant
                n == self.descriptions@.len(),
                k <= n,
                rx::compiled_pattern(re) == s@,
                vs@ == search_results(self@.take(k as int), s@),
            decreases n - k,
        {
            proof {
                self@.lemma_filter_map_take_succ(hit_fn(s@), k as int);
            }
            let d = &self.descriptions[k];
            if rx::regex_is_match(&re, d.description.as_str()) {
                match char_from_u32(d.code) {
                    Some(c) => {
                        vs.push(c);
                        proof {
                            assert(vs@ =~= search_results(self@.take(k + 1), s@));
                        }
                    },
                    None => {
                        proof {
                            assert(vs@ =~= search_results(self@.take(k + 1), s@));
                        }
                    },
                }
            } else {
                proof {
                    assert(vs@ =~= search_results(self@.take(k + 1), s@));
                }
            }
            k = k + 1;
        }
        proof {
            assert(self@.take(n as int) =~= self@);
        }
        Ok(vs)
    }
}

} // verus!
