//! The reference dataset grammar and the fallback linear scans.
//!
//! The dataset is a comma-delimited table with the columns `postcode`,
//! `latitude`, `longitude`, one record per line, first line a header.
//! The engine receives the dataset as its lines; opening and reading
//! the file is the caller's edge. A malformed line is tolerated during
//! a scan unless it is the matching line, whose parse error is
//! surfaced.

use vstd::prelude::*;
use vstd::string::*;
use crate::coords::Coordinate;
use crate::coords::coord_of_string;
use crate::errors::ResolveError;
use crate::keys::build_cache_key;
use crate::keys::normalize_key;
use crate::numbers::decimal_val_micro;
use crate::numbers::parse_micro;
use crate::numbers::decimal_body;
use crate::numbers::decimal_is_negative;
use crate::numbers::valid_decimal;
use crate::text::find_char;
use crate::text::lemma_find_char;
use crate::text::lemma_find_char_unique;
use crate::text::lemma_split_on_nonempty;
use crate::text::split_on;
use crate::text::split_string;
use crate::text::str_eq;

verus! {

/// The columns of a dataset line: its text split on commas.
pub open spec fn row_fields(line: Seq<char>) -> Seq<Seq<char>> {
    split_on(line, ',')
}

/// The postcode column. Splitting yields at least one field, so this is
/// defined for every line.
pub open spec fn row_postcode(line: Seq<char>) -> Seq<char> {
    row_fields(line)[0]
}

/// A line is well formed when it has exactly the three dataset columns
/// and both coordinate columns are valid numerals.
pub open spec fn row_well_formed(line: Seq<char>) -> bool {
    &&& row_fields(line).len() == 3
    &&& valid_decimal(row_fields(line)[1])
    &&& valid_decimal(row_fields(line)[2])
}

/// The `"lat;lon"` coordinate string carried by a line.
pub open spec fn row_coordinate_string(line: Seq<char>) -> Seq<char> {
    row_fields(line)[1] + seq![';'] + row_fields(line)[2]
}

/// The coordinate pair carried by a well-formed line.
pub open spec fn row_coordinate(line: Seq<char>) -> Coordinate {
    Coordinate {
        lat_micro: decimal_val_micro(row_fields(line)[1]) as i64,
        lon_micro: decimal_val_micro(row_fields(line)[2]) as i64,
    }
}

/// A line whose record belongs in the cache: well formed and not the
/// sentinel placeholder.
pub open spec fn row_is_loadable(line: Seq<char>) -> bool {
    row_well_formed(line) && !row_coordinate(line).spec_is_sentinel()
}

/// A line answers a reverse query when its postcode column normalizes
/// equal to the normalized query.
pub open spec fn row_matches_postcode(line: Seq<char>, q: Seq<char>) -> bool {
    normalize_key(row_postcode(line)) == normalize_key(q)
}

/// A line answers a forward query when it is well formed and its
/// coordinate columns denote exactly the queried pair.
pub open spec fn row_matches_coordinate(line: Seq<char>, c: Coordinate) -> bool {
    row_well_formed(line) && row_coordinate(line) == c
}

/// Index of the first line at or after `i` that matches the reverse
/// query, or `lines.len()` when none does.
pub open spec fn first_postcode_match(lines: Seq<Seq<char>>, q: Seq<char>, i: int) -> int
    decreases lines.len() - i,
    when 0 <= i <= lines.len()
{
    if i >= lines.len() {
        lines.len() as int
    } else if row_matches_postcode(lines[i], q) {
        i
    } else {
        first_postcode_match(lines, q, i + 1)
    }
}

/// Index of the first line at or after `i` that matches the forward
/// query, or `lines.len()` when none does.
pub open spec fn first_coordinate_match(lines: Seq<Seq<char>>, c: Coordinate, i: int) -> int
    decreases lines.len() - i,
    when 0 <= i <= lines.len()
{
    if i >= lines.len() {
        lines.len() as int
    } else if row_matches_coordinate(lines[i], c) {
        i
    } else {
        first_coordinate_match(lines, c, i + 1)
    }
}

/// A scan position with no match before it, which matches or is the
/// end, is the first match.
pub proof fn lemma_first_postcode_match_unique(
    lines: Seq<Seq<char>>,
    q: Seq<char>,
    lo: int,
    j: int,
)
    requires
        0 <= lo <= j <= lines.len(),
        forall|k: int| lo <= k < j ==> !row_matches_postcode(#[trigger] lines[k], q),
        j < lines.len() ==> row_matches_postcode(lines[j], q),
    ensures
        first_postcode_match(lines, q, lo) == j,
    decreases j - lo,
{
    if lo < j {
        lemma_first_postcode_match_unique(lines, q, lo + 1, j);
    }
}

/// The forward-scan counterpart of the uniqueness lemma.
pub proof fn lemma_first_coordinate_match_unique(
    lines: Seq<Seq<char>>,
    c: Coordinate,
    lo: int,
    j: int,
)
    requires
        0 <= lo <= j <= lines.len(),
        forall|k: int| lo <= k < j ==> !row_matches_coordinate(#[trigger] lines[k], c),
        j < lines.len() ==> row_matches_coordinate(lines[j], c),
    ensures
        first_coordinate_match(lines, c, lo) == j,
    decreases j - lo,
{
    if lo < j {
        lemma_first_coordinate_match_unique(lines, c, lo + 1, j);
    }
}

/// What the fallback reverse scan returns: the coordinate string of the
/// first line after the header whose postcode matches the query;
/// `NotFound` when the dataset is exhausted; `RecordParseError` when
/// the matching line itself is malformed.
pub open spec fn spec_reverse_search_file(lines: Seq<Seq<char>>, q: Seq<char>) -> Result<
    Seq<char>,
    ResolveError,
> {
    if lines.len() == 0 {
        Err(ResolveError::NotFound)
    } else {
        let i = first_postcode_match(lines, q, 1);
        if i >= lines.len() {
            Err(ResolveError::NotFound)
        } else if !row_well_formed(lines[i]) {
            Err(ResolveError::RecordParseError)
        } else {
            Ok(row_coordinate_string(lines[i]))
        }
    }
}

/// What the fallback forward scan returns: the postcode of the first
/// line after the header whose coordinate columns denote the queried
/// pair, or `NotFound`. A malformed line cannot match, so the scan
/// tolerates it and moves on.
pub open spec fn spec_forward_search_file(lines: Seq<Seq<char>>, c: Coordinate) -> Result<
    Seq<char>,
    ResolveError,
> {
    if lines.len() == 0 {
        Err(ResolveError::NotFound)
    } else {
        let i = first_coordinate_match(lines, c, 1);
        if i >= lines.len() {
            Err(ResolveError::NotFound)
        } else {
            Ok(row_postcode(lines[i]))
        }
    }
}

/// A line of dataset text with a trailing carriage return removed.
pub open spec fn strip_cr(s: Seq<char>) -> Seq<char> {
    if s.len() > 0 && s.last() == '\r' {
        s.drop_last()
    } else {
        s
    }
}

/// The lines of a dataset text: the text split on line feeds, each line
/// with a trailing carriage return removed.
pub open spec fn spec_split_lines(text: Seq<char>) -> Seq<Seq<char>> {
    split_on(text, '\n').map_values(|l: Seq<char>| strip_cr(l))
}

/// Split raw dataset text into its lines.
pub fn split_lines(text: &str) -> (r: Vec<String>)
    ensures
        r.deep_view() == spec_split_lines(text@),
{
    let raw = split_string(text, '\n');
    let mut r: Vec<String> = Vec::new();
    let mut i: usize = 0;
    while i < raw.len()
        invariant
            i <= raw.len(),
            raw.deep_view() == split_on(text@, '\n'),
            r.deep_view() =~= split_on(text@, '\n').map_values(|l: Seq<char>| strip_cr(l)).take(
                i as int,
            ),
        decreases raw.len() - i,
    {
        let line = &raw[i];
        let len = line.as_str().unicode_len();
        let stripped: String = if len > 0 && line.as_str().get_char(len - 1) == '\r' {
            let s = line.as_str().substring_char(0, len - 1);
            proof {
                assert(s@ =~= strip_cr(raw.deep_view()[i as int]));
            }
            s.to_owned()
        } else {
            proof {
                assert(line@ == strip_cr(raw.deep_view()[i as int]));
            }
            line.clone()
        };
        let ghost prev = r.deep_view();
        let ghost stripped_view = stripped@;
        r.push(stripped);
        proof {
            let m = split_on(text@, '\n').map_values(|l: Seq<char>| strip_cr(l));
            assert(m[i as int] == strip_cr(raw.deep_view()[i as int]));
            assert(prev.len() == i);
            assert(r@.len() == i + 1);
            assert(r.deep_view().len() == i + 1);
            assert forall|j: int| 0 <= j < i + 1 implies #[trigger] r.deep_view()[j] == m.take(
                i as int + 1,
            )[j] by {
                assert(r.deep_view()[j] == r@[j].deep_view());
                if j < i {
                    assert(r@[j] == r@.drop_last()[j]);
                    assert(prev[j] == r@.drop_last()[j].deep_view());
                    assert(prev[j] == m.take(i as int)[j]);
                } else {
                    assert(r@[j] == r@.last());
                    assert(r@.last().deep_view() == stripped_view);
                }
            }
            assert(r.deep_view() =~= m.take(i as int + 1));
        }
        i += 1;
    }
    proof {
        assert(r.deep_view() =~= spec_split_lines(text@));
    }
    r
}

/// How many records after the header the bulk loader would write:
/// well-formed, non-sentinel lines from `i` on.
pub open spec fn count_loadable_from(lines: Seq<Seq<char>>, i: int) -> int
    decreases lines.len() - i,
    when 0 <= i <= lines.len()
{
    if i >= lines.len() {
        0
    } else if row_is_loadable(lines[i]) {
        1 + count_loadable_from(lines, i + 1)
    } else {
        count_loadable_from(lines, i + 1)
    }
}

/// The dataset's expected valid-record count: the number of loadable
/// records after the header. The Bootstrap Coordinator reconciles the
/// store's record count against this value.
pub open spec fn spec_count_valid_records(lines: Seq<Seq<char>>) -> int {
    if lines.len() == 0 {
        0
    } else {
        count_loadable_from(lines, 1)
    }
}

/// Count the records that a bulk load of this dataset would write.
pub fn count_valid_records(lines: &Vec<String>) -> (n: usize)
    ensures
        n == spec_count_valid_records(lines.deep_view()),
{
    let ghost dv = lines.deep_view();
    if lines.len() == 0 {
        return 0;
    }
    let mut n: usize = 0;
    let mut i: usize = 1;
    while i < lines.len()
        invariant
            1 <= i <= lines.len() || (i == 1 && lines.len() == 1),
            dv == lines.deep_view(),
            i <= lines.len() ==> n + count_loadable_from(dv, i as int) == count_loadable_from(
                dv,
                1,
            ),
            n < i,
        decreases lines.len() - i,
    {
        if row_loadable_exec(&lines[i]) {
            n += 1;
        }
        i += 1;
    }
    n
}

/// Exec test for a loadable line.
fn row_loadable_exec(line: &String) -> (b: bool)
    ensures
        b == row_is_loadable(line@),
{
    proof {
        lemma_split_on_nonempty(line@, ',');
    }
    let fields = split_string(line.as_str(), ',');
    if fields.len() != 3 {
        return false;
    }
    let lat = parse_micro(fields[1].as_str());
    let lon = parse_micro(fields[2].as_str());
    match (lat, lon) {
        (Some(lat), Some(lon)) => !(lat == 99999999 && lon == 0),
        _ => false,
    }
}

/// The batched store write that a bulk load performs: one
/// `(cache key, coordinate string)` pair per loadable record, in
/// dataset order. Sentinel records are skipped silently.
pub open spec fn spec_bulk_entries_from(lines: Seq<Seq<char>>, i: int) -> Seq<
    (Seq<char>, Seq<char>),
>
    decreases lines.len() - i,
    when 0 <= i <= lines.len()
{
    if i >= lines.len() {
        Seq::empty()
    } else if row_is_loadable(lines[i]) {
        seq![(normalize_key(row_postcode(lines[i])), row_coordinate_string(lines[i]))]
            + spec_bulk_entries_from(lines, i + 1)
    } else {
        spec_bulk_entries_from(lines, i + 1)
    }
}

/// The full batch for a dataset: its loadable records after the header.
pub open spec fn spec_bulk_entries(lines: Seq<Seq<char>>) -> Seq<(Seq<char>, Seq<char>)> {
    if lines.len() == 0 {
        Seq::empty()
    } else {
        spec_bulk_entries_from(lines, 1)
    }
}

/// Assemble the batched write for a bulk load of the dataset.
pub fn build_bulk_entries(lines: &Vec<String>) -> (r: Vec<(String, String)>)
    ensures
        r.deep_view() == spec_bulk_entries(lines.deep_view()),
{
    let ghost dv = lines.deep_view();
    let mut r: Vec<(String, String)> = Vec::new();
    if lines.len() == 0 {
        return r;
    }
    let mut i: usize = 1;
    while i < lines.len()
        invariant
            1 <= i <= lines.len() || (i == 1 && lines.len() == 1),
            dv == lines.deep_view(),
            i <= lines.len() ==> r.deep_view() + spec_bulk_entries_from(dv, i as int)
                =~= spec_bulk_entries_from(dv, 1),
        decreases lines.len() - i,
    {
        let line = &lines[i];
        proof {
            assert(dv[i as int] == line@);
            lemma_split_on_nonempty(line@, ',');
        }
        if row_loadable_exec(line) {
            let fields = split_string(line.as_str(), ',');
            let key = build_cache_key(fields[0].as_str());
            let mut value = fields[1].clone();
            value.append(";");
            value.append(fields[2].as_str());
            proof {
                reveal_strlit(";");
                assert(";"@ =~= seq![';']);
                assert(value@ =~= row_coordinate_string(dv[i as int]));
            }
            r.push((key, value));
        }
        proof {
            assert(r.deep_view() + spec_bulk_entries_from(dv, i + 1) =~= spec_bulk_entries_from(
                dv,
                1,
            ));
        }
        i += 1;
    }
    proof {
        assert(r.deep_view() =~= spec_bulk_entries(dv));
    }
    r
}

/// Every character of a valid numeral is a digit, a minus sign or a
/// decimal point.
pub proof fn lemma_valid_decimal_char_kinds(s: Seq<char>)
    requires
        valid_decimal(s),
    ensures
        forall|k: int|
            0 <= k < s.len() ==> crate::numbers::is_digit(#[trigger] s[k]) || s[k] == '-' || s[k]
                == '.',
{
    let t = decimal_body(s);
    let p = find_char(t, '.');
    lemma_find_char(t, '.');
    assert forall|k: int|
        0 <= k < s.len() implies crate::numbers::is_digit(#[trigger] s[k]) || s[k] == '-' || s[k]
        == '.' by {
        let off: int = if decimal_is_negative(s) {
            1
        } else {
            0
        };
        if k >= off {
            assert(s[k] == t[k - off]);
            let j = k - off;
            if p == t.len() {
                assert(crate::numbers::is_digit(t[j]));
            } else {
                if j < p {
                    assert(t[j] == t.subrange(0, p)[j]);
                } else if j > p {
                    assert(t[j] == t.subrange(p + 1, t.len() as int)[j - p - 1]);
                }
            }
        }
    }
}

/// The coordinate string of a well-formed row parses back to exactly
/// the row's coordinate pair.
pub proof fn lemma_row_coordinate_string_parses(line: Seq<char>)
    requires
        row_well_formed(line),
    ensures
        coord_of_string(row_coordinate_string(line)) == Some(row_coordinate(line)),
{
    let a = row_fields(line)[1];
    let b = row_fields(line)[2];
    let s = row_coordinate_string(line);
    lemma_valid_decimal_char_kinds(a);
    lemma_valid_decimal_char_kinds(b);
    assert forall|k: int| 0 <= k < a.len() implies s[k] != ';' by {
        assert(s[k] == a[k]);
    }
    assert(s[a.len() as int] == ';');
    lemma_find_char_unique(s, ';', a.len() as int);
    assert(s.subrange(0, a.len() as int) =~= a);
    assert(s.subrange(a.len() as int + 1, s.len() as int) =~= b);
}

/// Round trip over the dataset: a loadable record that is the first
/// answer for its own postcode and for its own coordinates is exactly
/// what the two fallback scans return; the returned coordinate string
/// parses back to the record's pair, and the returned postcode is the
/// record's own, so it normalizes equal to the queried one.
pub proof fn lemma_dataset_round_trip(lines: Seq<Seq<char>>, i: int)
    requires
        1 <= i < lines.len(),
        row_is_loadable(lines[i]),
        first_postcode_match(lines, row_postcode(lines[i]), 1) == i,
        first_coordinate_match(lines, row_coordinate(lines[i]), 1) == i,
    ensures
        spec_reverse_search_file(lines, row_postcode(lines[i])) == Ok::<Seq<char>, ResolveError>(
            row_coordinate_string(lines[i]),
        ),
        coord_of_string(row_coordinate_string(lines[i])) == Some(row_coordinate(lines[i])),
        spec_forward_search_file(lines, row_coordinate(lines[i])) == Ok::<Seq<char>, ResolveError>(
            row_postcode(lines[i]),
        ),
{
    lemma_row_coordinate_string_parses(lines[i]);
}

proof fn lemma_bulk_entries_from_exclude_sentinel(lines: Seq<Seq<char>>, i: int)
    requires
        0 <= i <= lines.len(),
    ensures
        forall|j: int|
            0 <= j < spec_bulk_entries_from(lines, i).len() ==> {
                let v = (#[trigger] spec_bulk_entries_from(lines, i)[j]).1;
                coord_of_string(v) is Some && !coord_of_string(v)->Some_0.spec_is_sentinel()
            },
    decreases lines.len() - i,
{
    if i < lines.len() {
        lemma_bulk_entries_from_exclude_sentinel(lines, i + 1);
        if row_is_loadable(lines[i]) {
            lemma_row_coordinate_string_parses(lines[i]);
            assert forall|j: int|
                0 <= j < spec_bulk_entries_from(lines, i).len() implies {
                let v = (#[trigger] spec_bulk_entries_from(lines, i)[j]).1;
                coord_of_string(v) is Some && !coord_of_string(v)->Some_0.spec_is_sentinel()
            } by {
                if j > 0 {
                    assert(spec_bulk_entries_from(lines, i)[j] == spec_bulk_entries_from(
                        lines,
                        i + 1,
                    )[j - 1]);
                }
            }
        }
    }
}

/// Sentinel exclusion at the loader: no value of the batched bulk
/// write is the sentinel placeholder, and every value is a parseable
/// coordinate string.
pub proof fn lemma_bulk_entries_exclude_sentinel(lines: Seq<Seq<char>>)
    ensures
        forall|j: int|
            0 <= j < spec_bulk_entries(lines).len() ==> {
                let v = (#[trigger] spec_bulk_entries(lines)[j]).1;
                coord_of_string(v) is Some && !coord_of_string(v)->Some_0.spec_is_sentinel()
            },
{
    if lines.len() > 0 {
        lemma_bulk_entries_from_exclude_sentinel(lines, 1);
    }
}

/// No entry of the batch from `lo` on carries a key that no loadable
/// row from `lo` on normalizes to.
pub proof fn lemma_bulk_entries_keys_differ(lines: Seq<Seq<char>>, lo: int, key: Seq<char>)
    requires
        0 <= lo <= lines.len(),
        forall|r: int|
            lo <= r < lines.len() && row_is_loadable(#[trigger] lines[r]) ==> normalize_key(
                row_postcode(lines[r]),
            ) != key,
    ensures
        forall|j: int|
            0 <= j < spec_bulk_entries_from(lines, lo).len() ==> (#[trigger] spec_bulk_entries_from(
                lines,
                lo,
            )[j]).0 != key,
    decreases lines.len() - lo,
{
    if lo < lines.len() {
        lemma_bulk_entries_keys_differ(lines, lo + 1, key);
        if row_is_loadable(lines[lo]) {
            assert forall|j: int|
                0 <= j < spec_bulk_entries_from(lines, lo).len() implies (
            #[trigger] spec_bulk_entries_from(lines, lo)[j]).0 != key by {
                if j > 0 {
                    assert(spec_bulk_entries_from(lines, lo)[j] == spec_bulk_entries_from(
                        lines,
                        lo + 1,
                    )[j - 1]);
                }
            }
        }
    }
}

/// After a bulk load of the batch from `lo` on, over any prior store
/// contents, the cache key of a loadable record whose normalized
/// postcode no other loadable record shares holds exactly that
/// record's coordinate string.
pub proof fn lemma_bulk_load_resolves_row(
    m: Map<(Seq<char>, Seq<char>), Seq<char>>,
    t: Seq<char>,
    lines: Seq<Seq<char>>,
    lo: int,
    i: int,
)
    requires
        0 <= lo <= i < lines.len(),
        row_is_loadable(lines[i]),
        forall|r: int|
            lo <= r < lines.len() && r != i && row_is_loadable(#[trigger] lines[r])
                ==> normalize_key(row_postcode(lines[r])) != normalize_key(row_postcode(lines[i])),
    ensures
        crate::store::spec_apply_bulk(m, t, spec_bulk_entries_from(lines, lo)).contains_key(
            (t, normalize_key(row_postcode(lines[i]))),
        ),
        crate::store::spec_apply_bulk(m, t, spec_bulk_entries_from(lines, lo))[
            (t, normalize_key(row_postcode(lines[i])))
        ] == row_coordinate_string(lines[i]),
    decreases i - lo,
{
    let key = normalize_key(row_postcode(lines[i]));
    let ps = spec_bulk_entries_from(lines, lo);
    if lo == i {
        assert(ps[0] == (key, row_coordinate_string(lines[i])));
        assert(ps.drop_first() =~= spec_bulk_entries_from(lines, lo + 1));
        let m1 = m.insert((t, key), row_coordinate_string(lines[i]));
        lemma_bulk_entries_keys_differ(lines, lo + 1, key);
        crate::store::lemma_apply_bulk_untouched(
            m1,
            t,
            spec_bulk_entries_from(lines, lo + 1),
            (t, key),
        );
    } else {
        if row_is_loadable(lines[lo]) {
            assert(ps.drop_first() =~= spec_bulk_entries_from(lines, lo + 1));
            let m1 = m.insert((t, ps[0].0), ps[0].1);
            lemma_bulk_load_resolves_row(m1, t, lines, lo + 1, i);
        } else {
            lemma_bulk_load_resolves_row(m, t, lines, lo + 1, i);
        }
    }
}

/// The dataset row that produced entry `j` of the batch from `lo` on.
pub open spec fn bulk_entry_source(lines: Seq<Seq<char>>, lo: int, j: int) -> int
    decreases lines.len() - lo,
    when 0 <= lo <= lines.len()
{
    if lo >= lines.len() {
        lo
    } else if row_is_loadable(lines[lo]) {
        if j == 0 {
            lo
        } else {
            bulk_entry_source(lines, lo + 1, j - 1)
        }
    } else {
        bulk_entry_source(lines, lo + 1, j)
    }
}

/// Every entry of the batch from `lo` on comes from a loadable record
/// at or after `lo`: its key is that record's cache key and its value
/// that record's coordinate string.
pub proof fn lemma_bulk_entry_source(lines: Seq<Seq<char>>, lo: int, j: int)
    requires
        0 <= lo <= lines.len(),
        0 <= j < spec_bulk_entries_from(lines, lo).len(),
    ensures
        lo <= bulk_entry_source(lines, lo, j) < lines.len(),
        row_is_loadable(lines[bulk_entry_source(lines, lo, j)]),
        spec_bulk_entries_from(lines, lo)[j] == (
            normalize_key(row_postcode(lines[bulk_entry_source(lines, lo, j)])),
            row_coordinate_string(lines[bulk_entry_source(lines, lo, j)]),
        ),
    decreases lines.len() - lo,
{
    if row_is_loadable(lines[lo]) {
        if j > 0 {
            lemma_bulk_entry_source(lines, lo + 1, j - 1);
            assert(spec_bulk_entries_from(lines, lo)[j] == spec_bulk_entries_from(lines, lo + 1)[j
                - 1]);
        }
    } else {
        lemma_bulk_entry_source(lines, lo + 1, j);
    }
}

/// Fallback reverse resolution: scan the dataset lines for the query
/// postcode and return its raw `"lat;lon"` coordinate string.
pub fn reverse_search_file(lines: &Vec<String>, query: &str) -> (r: Result<String, ResolveError>)
    ensures
        match r {
            Ok(s) => spec_reverse_search_file(lines.deep_view(), query@) == Ok::<
                Seq<char>,
                ResolveError,
            >(s@),
            Err(e) => spec_reverse_search_file(lines.deep_view(), query@) == Err::<
                Seq<char>,
                ResolveError,
            >(e),
        },
{
    let ghost dv = lines.deep_view();
    let qkey = build_cache_key(query);
    let mut i: usize = 1;
    while i < lines.len()
        invariant
            1 <= i,
            i <= lines.len() || (i == 1 && lines.len() == 0),
            dv == lines.deep_view(),
            qkey@ == normalize_key(query@),
            forall|k: int| 1 <= k < i ==> !row_matches_postcode(#[trigger] dv[k], query@),
        decreases lines.len() - i,
    {
        let line = &lines[i];
        proof {
            assert(dv[i as int] == line@);
            lemma_split_on_nonempty(line@, ',');
        }
        let fields = split_string(line.as_str(), ',');
        let fkey = build_cache_key(fields[0].as_str());
        if str_eq(fkey.as_str(), qkey.as_str()) {
            proof {
                lemma_first_postcode_match_unique(dv, query@, 1, i as int);
            }
            if fields.len() != 3 {
                return Err(ResolveError::RecordParseError);
            }
            if parse_micro(fields[1].as_str()).is_none() || parse_micro(
                fields[2].as_str(),
            ).is_none() {
                return Err(ResolveError::RecordParseError);
            }
            let mut out = fields[1].clone();
            out.append(";");
            out.append(fields[2].as_str());
            proof {
                reveal_strlit(";");
                assert(";"@ =~= seq![';']);
                assert(out@ =~= row_coordinate_string(dv[i as int]));
            }
            return Ok(out);
        }
        i += 1;
    }
    proof {
        if lines.len() > 0 {
            lemma_first_postcode_match_unique(dv, query@, 1, lines.len() as int);
        }
    }
    Err(ResolveError::NotFound)
}

/// Fallback forward resolution: scan the dataset lines for a record
/// whose coordinates denote the queried pair and return its postcode
/// column as the dataset wrote it.
pub fn forward_search_file(lines: &Vec<String>, coordinates: &Coordinate) -> (r: Result<
    String,
    ResolveError,
>)
    ensures
        match r {
            Ok(s) => spec_forward_search_file(lines.deep_view(), *coordinates) == Ok::<
                Seq<char>,
                ResolveError,
            >(s@),
            Err(e) => spec_forward_search_file(lines.deep_view(), *coordinates) == Err::<
                Seq<char>,
                ResolveError,
            >(e),
        },
{
    let ghost dv = lines.deep_view();
    let mut i: usize = 1;
    while i < lines.len()
        invariant
            1 <= i,
            i <= lines.len() || (i == 1 && lines.len() == 0),
            dv == lines.deep_view(),
            forall|k: int| 1 <= k < i ==> !row_matches_coordinate(#[trigger] dv[k], *coordinates),
        decreases lines.len() - i,
    {
        let line = &lines[i];
        proof {
            assert(dv[i as int] == line@);
            lemma_split_on_nonempty(line@, ',');
        }
        let fields = split_string(line.as_str(), ',');
        if fields.len() == 3 {
            let lat = parse_micro(fields[1].as_str());
            let lon = parse_micro(fields[2].as_str());
            match (lat, lon) {
                (Some(lat), Some(lon)) => {
                    if lat == coordinates.lat_micro && lon == coordinates.lon_micro {
                        proof {
                            lemma_first_coordinate_match_unique(dv, *coordinates, 1, i as int);
                        }
                        return Ok(fields[0].clone());
                    }
                },
                _ => {},
            }
        }
        proof {
            assert(!row_matches_coordinate(dv[i as int], *coordinates));
        }
        i += 1;
    }
    proof {
        if lines.len() > 0 {
            lemma_first_coordinate_match_unique(dv, *coordinates, 1, lines.len() as int);
        }
    }
    Err(ResolveError::NotFound)
}

} // verus!
