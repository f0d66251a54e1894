use vstd::prelude::*;
use vstd::multiset::Multiset;
use vstd::string::*;

use crate::date::{date_of_digits, SnapshotDate};
use crate::errors::As2orgError;
use crate::text::{chars_to_string, is_digit, is_sub_at, str_to_chars};

verus! {

/// The fixed location under which the dataset snapshots are published.
pub open spec fn spec_base_url() -> Seq<char> {
    "https://publicdata.caida.org/datasets/as-organizations"@
}

/// The fixed location under which the dataset snapshots are published.
pub fn base_url() -> (s: &'static str)
    ensures
        s@ == spec_base_url(),
{
    "https://publicdata.caida.org/datasets/as-organizations"
}

/// The fixed ending of every snapshot file name.
pub open spec fn snapshot_suffix() -> Seq<char> {
    ".as-org2info.jsonl.gz"@
}

/// The fixed ending of every snapshot file name.
pub fn snapshot_suffix_chars() -> (v: Vec<char>)
    ensures
        v@ == snapshot_suffix(),
{
    str_to_chars(".as-org2info.jsonl.gz")
}

/// A snapshot file name stands in the line at position `i`: eight date
/// digits followed by the fixed suffix.
pub open spec fn is_snapshot_at(line: Seq<char>, i: int) -> bool {
    &&& 0 <= i
    &&& i + 8 + snapshot_suffix().len() <= line.len()
    &&& forall|k: int| i <= k < i + 8 ==> is_digit(#[trigger] line[k])
    &&& line.subrange(i + 8, i + 8 + snapshot_suffix().len() as int) == snapshot_suffix()
}

/// The snapshot file name standing in the line at position `i`.
pub open spec fn name_at(line: Seq<char>, i: int) -> Seq<char> {
    line.subrange(i, i + 8 + snapshot_suffix().len() as int)
}

/// The start position of every snapshot file name standing in the line
/// at or after position `i`, in ascending order.
pub open spec fn match_positions_from(line: Seq<char>, i: int) -> Seq<int>
    decreases line.len() - i,
{
    if i < 0 || i >= line.len() {
        Seq::empty()
    } else {
        (if is_snapshot_at(line, i) {
            seq![i]
        } else {
            Seq::<int>::empty()
        }) + match_positions_from(line, i + 1)
    }
}

/// The snapshot file names standing in the line at or after position `i`,
/// in line order.
pub open spec fn names_from(line: Seq<char>, i: int) -> Seq<Seq<char>> {
    match_positions_from(line, i).map_values(|p: int| name_at(line, p))
}

/// Every snapshot file name standing in the line, one per occurrence, in
/// line order.
pub open spec fn names_of_line(line: Seq<char>) -> Seq<Seq<char>> {
    names_from(line, 0)
}

proof fn lemma_positions_are_matches(line: Seq<char>, i: int)
    ensures
        forall|k: int|
            0 <= k < match_positions_from(line, i).len() ==> is_snapshot_at(
                line,
                #[trigger] match_positions_from(line, i)[k],
            ),
    decreases line.len() - i,
{
    if 0 <= i < line.len() {
        lemma_positions_are_matches(line, i + 1);
        let ps = match_positions_from(line, i);
        let rest = match_positions_from(line, i + 1);
        assert forall|k: int| 0 <= k < ps.len() implies is_snapshot_at(
            line,
            #[trigger] ps[k],
        ) by {
            if is_snapshot_at(line, i) {
                if k > 0 {
                    assert(ps[k] == rest[k - 1]);
                }
            } else {
                assert(ps[k] == rest[k]);
            }
        }
    }
}

/// Does a snapshot file name stand in the line at position `i`?
fn snapshot_match_at(line: &Vec<char>, suffix: &Vec<char>, i: usize) -> (r: bool)
    requires
        suffix@ == snapshot_suffix(),
    ensures
        r == is_snapshot_at(line@, i as int),
{
    let n = line.len();
    if i >= n || n - i < 8 || n - i - 8 < suffix.len() {
        return false;
    }
    let mut k: usize = 0;
    while k < 8
        invariant
            n == line@.len(),
            i + 8 + suffix@.len() <= n,
            k <= 8,
            forall|j: int| i <= j < i + k ==> is_digit(#[trigger] line@[j]),
        decreases 8 - k,
    {
        let c = line[i + k];
        let cv = c as u32;
        if cv < 0x30 || cv > 0x39 {
            assert(!is_digit(line@[i + k]));
            return false;
        }
        k += 1;
    }
    let r = crate::text::matches_at(line, suffix, i + 8);
    assert(r == is_snapshot_at(line@, i as int)) by {
        assert(is_sub_at(line@, suffix@, i + 8) == (line@.subrange(
            i + 8,
            i + 8 + snapshot_suffix().len() as int,
        ) == snapshot_suffix()));
    }
    r
}


/// The lines of a text: the pieces between newline characters, with one
/// piece after the last newline (empty when the text ends in a newline).
pub open spec fn split_lines_spec(s: Seq<char>) -> Seq<Seq<char>>
    decreases s.len(),
{
    if s.len() == 0 {
        seq![Seq::<char>::empty()]
    } else if s[0] == '\n' {
        seq![Seq::<char>::empty()] + split_lines_spec(s.skip(1))
    } else {
        attach_first(seq![s[0]], split_lines_spec(s.skip(1)))
    }
}

/// Prefixes the first line of a non-empty line list.
pub open spec fn attach_first(p: Seq<char>, lines: Seq<Seq<char>>) -> Seq<Seq<char>> {
    seq![p + lines[0]] + lines.skip(1)
}

pub proof fn lemma_split_lines_nonempty(s: Seq<char>)
    ensures
        split_lines_spec(s).len() >= 1,
    decreases s.len(),
{
    if s.len() > 0 {
        lemma_split_lines_nonempty(s.skip(1));
    }
}

/// The views of a vector of character vectors.
pub open spec fn views_of_lines(s: Seq<Vec<char>>) -> Seq<Seq<char>> {
    s.map_values(|v: Vec<char>| v@)
}

/// Splits a text into its lines.
fn split_lines(content: &Vec<char>) -> (r: Vec<Vec<char>>)
    ensures
        views_of_lines(r@) == split_lines_spec(content@),
{
    let n = content.len();
    let mut out: Vec<Vec<char>> = Vec::new();
    let mut cur: Vec<char> = Vec::new();
    let mut i: usize = 0;
    proof {
        assert(content@.skip(0) =~= content@);
    }
    while i < n
        invariant
            n == content@.len(),
            i <= n,
            split_lines_spec(content@.skip(i as int)).len() >= 1,
            views_of_lines(out@) + attach_first(
                cur@,
                split_lines_spec(content@.skip(i as int)),
            ) == split_lines_spec(content@),
        decreases n - i,
    {
        let c = content[i];
        proof {
            assert(content@.skip(i as int)[0] == content@[i as int]);
            assert(content@.skip(i as int).skip(1) =~= content@.skip(i as int + 1));
            lemma_split_lines_nonempty(content@.skip(i as int + 1));
        }
        let ghost rest = split_lines_spec(content@.skip(i as int + 1));
        if c == '\n' {
            proof {
                assert(attach_first(cur@, split_lines_spec(content@.skip(i as int))) =~~= seq![
                    cur@,
                ] + rest);
            }
            out.push(cur);
            cur = Vec::new();
            proof {
                assert(views_of_lines(out@) =~~= views_of_lines(out@.drop_last())
                    + seq![out@.last()@]);
                assert(attach_first(cur@, rest) =~~= rest);
                assert(views_of_lines(out@) + attach_first(cur@, rest) =~~= split_lines_spec(
                    content@,
                ));
            }
        } else {
            proof {
                assert(attach_first(cur@, split_lines_spec(content@.skip(i as int)))
                    =~~= attach_first(cur@.push(c), rest));
            }
            cur.push(c);
        }
        i += 1;
    }
    proof {
        assert(content@.skip(n as int) =~= Seq::<char>::empty());
        assert(attach_first(cur@, split_lines_spec(content@.skip(n as int))) =~~= seq![cur@]);
    }
    out.push(cur);
    proof {
        assert(views_of_lines(out@) =~~= views_of_lines(out@.drop_last()) + seq![out@.last()@]);
        assert(views_of_lines(out@) =~~= split_lines_spec(content@));
    }
    out
}

/// All snapshot file names found in the given lines, one per occurrence,
/// in line order and within a line in position order.
pub open spec fn names_of_lines(lines: Seq<Seq<char>>) -> Seq<Seq<char>>
    decreases lines.len(),
{
    if lines.len() == 0 {
        Seq::empty()
    } else {
        names_of_line(lines[0]) + names_of_lines(lines.skip(1))
    }
}

/// All snapshot file names found in a listing text.
pub open spec fn snapshot_names(content: Seq<char>) -> Seq<Seq<char>> {
    names_of_lines(split_lines_spec(content))
}

/// The name standing at a match is eight digits followed by the suffix.
pub proof fn lemma_snapshot_name_shape(line: Seq<char>, i: int)
    requires
        is_snapshot_at(line, i),
    ensures
        name_at(line, i).len() == 8 + snapshot_suffix().len(),
        forall|k: int| 0 <= k < 8 ==> is_digit(#[trigger] name_at(line, i)[k]),
        name_at(line, i).subrange(8, name_at(line, i).len() as int) == snapshot_suffix(),
{
    let nm = name_at(line, i);
    assert forall|k: int| 0 <= k < 8 implies is_digit(#[trigger] nm[k]) by {
        assert(nm[k] == line[i + k]);
    }
    assert(nm.subrange(8, nm.len() as int) =~= line.subrange(
        i + 8,
        i + 8 + snapshot_suffix().len() as int,
    ));
}

/// A part of a character vector as a vector of its own.
fn subvec(v: &Vec<char>, from: usize, to: usize) -> (r: Vec<char>)
    requires
        from <= to <= v@.len(),
    ensures
        r@ == v@.subrange(from as int, to as int),
{
    let mut r: Vec<char> = Vec::new();
    let mut k: usize = from;
    while k < to
        invariant
            from <= k <= to <= v@.len(),
            r@ == v@.subrange(from as int, k as int),
        decreases to - k,
    {
        r.push(v[k]);
        proof {
            assert(v@.subrange(from as int, k as int).push(v@[k as int]) =~= v@.subrange(
                from as int,
                k as int + 1,
            ));
        }
        k += 1;
    }
    r
}

/// The entry a snapshot file name stands for: the file's location under the
/// base location, and the date written in its first eight characters.
pub open spec fn spec_pair(name: Seq<char>) -> (Seq<char>, SnapshotDate) {
    (spec_base_url() + seq!['/'] + name, date_of_digits(name))
}

/// The entries the given snapshot file names stand for, in order.
pub open spec fn pairs_of_names(names: Seq<Seq<char>>) -> Seq<(Seq<char>, SnapshotDate)> {
    names.map_values(|nm: Seq<char>| spec_pair(nm))
}

/// The entries of all snapshot file names in a listing text, in listing
/// order.
pub open spec fn listing_pairs(content: Seq<char>) -> Seq<(Seq<char>, SnapshotDate)> {
    pairs_of_names(snapshot_names(content))
}

/// Every name carries a real calendar date.
pub open spec fn all_dates_valid(names: Seq<Seq<char>>) -> bool {
    forall|i: int| 0 <= i < names.len() ==> date_of_digits(#[trigger] names[i]).valid()
}

/// The view of an entry: the location's characters and the date.
pub open spec fn pair_view(p: (String, SnapshotDate)) -> (Seq<char>, SnapshotDate) {
    (p.0@, p.1)
}

/// The views of a vector of entries.
pub open spec fn views_of(s: Seq<(String, SnapshotDate)>) -> Seq<(Seq<char>, SnapshotDate)> {
    s.map_values(|p: (String, SnapshotDate)| pair_view(p))
}

/// The entries are ordered by date, earliest first.
pub open spec fn date_sorted(s: Seq<(String, SnapshotDate)>) -> bool {
    forall|i: int, j: int|
        0 <= i <= j < s.len() ==> #[trigger] s[i].1.num() <= #[trigger] s[j].1.num()
}

/// The entries of one date, in order: the subsequence whose date has the
/// given numeric form.
pub open spec fn date_class(ps: Seq<(Seq<char>, SnapshotDate)>, k: int) -> Seq<
    (Seq<char>, SnapshotDate),
> {
    ps.filter(|p: (Seq<char>, SnapshotDate)| p.1.num() == k)
}

proof fn lemma_date_class_insert_end(
    ps: Seq<(Seq<char>, SnapshotDate)>,
    pos: int,
    x: (Seq<char>, SnapshotDate),
    k: int,
)
    requires
        0 <= pos <= ps.len(),
        forall|t: int| pos <= t < ps.len() ==> (#[trigger] ps[t].1).num() != k,
    ensures
        x.1.num() == k ==> date_class(ps.insert(pos, x), k) == date_class(ps, k).push(x),
        x.1.num() != k ==> date_class(ps.insert(pos, x), k) == date_class(ps, k),
    decreases ps.len(),
{
    reveal(Seq::filter);
    let q = ps.insert(pos, x);
    if pos == ps.len() {
        assert(q =~= ps.push(x));
        assert(q.drop_last() =~= ps);
        assert(q.last() == x);
        if x.1.num() == k {
            assert(date_class(q, k) =~= date_class(ps, k).push(x));
        } else {
            assert(date_class(q, k) =~= date_class(ps, k));
        }
    } else {
        assert(q.drop_last() =~= ps.drop_last().insert(pos, x));
        assert(q.last() == ps.last());
        assert forall|t: int|
            pos <= t < ps.drop_last().len() implies (#[trigger] ps.drop_last()[t].1).num()
            != k by {
            assert(ps.drop_last()[t] == ps[t]);
        }
        lemma_date_class_insert_end(ps.drop_last(), pos, x, k);
        assert(ps[ps.len() - 1].1.num() != k);
        assert(date_class(q, k) == date_class(q.drop_last(), k));
        assert(date_class(ps, k) == date_class(ps.drop_last(), k));
    }
}

proof fn lemma_date_class_insert_skip(
    ps: Seq<(Seq<char>, SnapshotDate)>,
    pos: int,
    x: (Seq<char>, SnapshotDate),
    k: int,
)
    requires
        0 <= pos <= ps.len(),
        x.1.num() != k,
    ensures
        date_class(ps.insert(pos, x), k) == date_class(ps, k),
    decreases ps.len(),
{
    reveal(Seq::filter);
    let q = ps.insert(pos, x);
    if pos == ps.len() {
        assert(q =~= ps.push(x));
        assert(q.drop_last() =~= ps);
        assert(q.last() == x);
        assert(date_class(q, k) =~= date_class(ps, k));
    } else {
        assert(q.drop_last() =~= ps.drop_last().insert(pos, x));
        assert(q.last() == ps.last());
        lemma_date_class_insert_skip(ps.drop_last(), pos, x, k);
        assert(date_class(q, k) == if ps.last().1.num() == k {
            date_class(q.drop_last(), k).push(ps.last())
        } else {
            date_class(q.drop_last(), k)
        });
        assert(date_class(ps, k) == if ps.last().1.num() == k {
            date_class(ps.drop_last(), k).push(ps.last())
        } else {
            date_class(ps.drop_last(), k)
        });
    }
}

proof fn lemma_sorted_insert(s: Seq<(String, SnapshotDate)>, pos: int, p: (String, SnapshotDate))
    requires
        date_sorted(s),
        0 <= pos <= s.len(),
        forall|k: int| pos <= k < s.len() ==> (#[trigger] s[k].1).num() > p.1.num(),
        pos > 0 ==> s[pos - 1].1.num() <= p.1.num(),
    ensures
        date_sorted(s.insert(pos, p)),
{
    let no = s.insert(pos, p);
    s.insert_ensures(pos, p);
    assert forall|i: int, j: int| 0 <= i <= j < no.len() implies #[trigger] no[i].1.num()
        <= #[trigger] no[j].1.num() by {
        if i < pos {
            assert(no[i] == s[i]);
        } else if i == pos {
            assert(no[i] == p);
        } else {
            assert(no[i] == s[i - 1]);
        }
        if j < pos {
            assert(no[j] == s[j]);
        } else if j == pos {
            assert(no[j] == p);
        } else {
            assert(no[j] == s[j - 1]);
        }
        if i < pos && j == pos && pos > 0 {
            assert(s[i].1.num() <= s[pos - 1].1.num());
        }
        if i == pos && j > pos {
            assert(s[j - 1].1.num() > p.1.num());
        }
    }
}

proof fn lemma_views_insert(s: Seq<(String, SnapshotDate)>, i: int, p: (String, SnapshotDate))
    requires
        0 <= i <= s.len(),
    ensures
        views_of(s.insert(i, p)) =~= views_of(s).insert(i, pair_view(p)),
{
    s.insert_ensures(i, p);
    views_of(s).insert_ensures(i, pair_view(p));
}

proof fn lemma_views_remove(s: Seq<(String, SnapshotDate)>, i: int)
    requires
        0 <= i < s.len(),
    ensures
        views_of(s.remove(i)) =~= views_of(s).remove(i),
{
    s.remove_ensures(i);
    views_of(s).remove_ensures(i);
}

/// Orders the entries by date, earliest first, keeping the given order
/// among entries of one date.
fn sort_pairs_by_date(input: Vec<(String, SnapshotDate)>) -> (r: Vec<(String, SnapshotDate)>)
    requires
        forall|i: int| 0 <= i < input@.len() ==> (#[trigger] input@[i].1).valid(),
    ensures
        date_sorted(r@),
        views_of(r@).to_multiset() == views_of(input@).to_multiset(),
        r@.len() == input@.len(),
        forall|i: int| 0 <= i < r@.len() ==> (#[trigger] r@[i].1).valid(),
        forall|k: int| #[trigger] date_class(views_of(r@), k) == date_class(views_of(input@), k),
{
    broadcast use vstd::seq_lib::group_to_multiset_ensures;

    let ghost iview = views_of(input@);
    let ghost orig = views_of(input@).to_multiset();
    let mut v = input;
    let mut out: Vec<(String, SnapshotDate)> = Vec::new();
    let ghost mut done: Seq<(Seq<char>, SnapshotDate)> = Seq::empty();
    proof {
        assert(views_of(out@).to_multiset() =~= Multiset::<(Seq<char>, SnapshotDate)>::empty());
        assert(views_of(out@).to_multiset().add(views_of(v@).to_multiset()) =~= orig);
        assert(done + views_of(v@) =~= iview);
        assert forall|k: int| #[trigger] date_class(views_of(out@), k) == date_class(done, k) by {
            reveal(Seq::filter);
            assert(views_of(out@) =~= done);
        }
    }
    while v.len() > 0
        invariant
            iview == views_of(input@),
            date_sorted(out@),
            forall|i: int| 0 <= i < out@.len() ==> (#[trigger] out@[i].1).valid(),
            forall|i: int| 0 <= i < v@.len() ==> (#[trigger] v@[i].1).valid(),
            views_of(out@).to_multiset().add(views_of(v@).to_multiset()) == orig,
            out@.len() + v@.len() == views_of(input@).len(),
            done + views_of(v@) == iview,
            forall|k: int| #[trigger] date_class(views_of(out@), k) == date_class(done, k),
        decreases v@.len(),
    {
        let ghost v0 = v@;
        let p = v.remove(0);
        proof {
            lemma_views_remove(v0, 0);
            assert(pair_view(p) == views_of(v0)[0]);
            assert(views_of(v@) =~= views_of(v0).remove(0));
            vstd::seq_lib::to_multiset_remove(views_of(v0), 0);
            assert(views_of(v@).to_multiset() == views_of(v0).to_multiset().remove(
                pair_view(p),
            ));
        }
        let key = p.1.num_value();
        let mut pos = out.len();
        while pos > 0 && out[pos - 1].1.num_value() > key
            invariant
                pos <= out@.len(),
                key == p.1.num(),
                p.1.valid(),
                date_sorted(out@),
                forall|k: int| pos <= k < out@.len() ==> (#[trigger] out@[k].1).num() > key,
                forall|i: int| 0 <= i < out@.len() ==> (#[trigger] out@[i].1).valid(),
            decreases pos,
        {
            pos -= 1;
        }
        let ghost o0 = out@;
        out.insert(pos, p);
        proof {
            broadcast use vstd::multiset::group_multiset_axioms;

            lemma_views_insert(o0, pos as int, p);
            o0.insert_ensures(pos as int, p);
            assert(views_of(out@) =~= views_of(o0).insert(pos as int, pair_view(p)));
            vstd::seq_lib::to_multiset_insert(views_of(o0), pos as int, pair_view(p));
            assert(views_of(out@).to_multiset() == views_of(o0).to_multiset().insert(
                pair_view(p),
            ));
            views_of(v0).to_multiset_ensures();
            assert(views_of(v0).contains(views_of(v0)[0]));
            assert(views_of(v0).to_multiset().count(pair_view(p)) > 0);
            assert(views_of(out@).to_multiset().add(views_of(v@).to_multiset()) =~= orig);
            lemma_sorted_insert(o0, pos as int, p);
            let ghost pv = pair_view(p);
            let ghost done0 = done;
            done = done0.push(pv);
            assert(done + views_of(v@) =~= iview);
            assert forall|k: int| #[trigger] date_class(views_of(out@), k) == date_class(
                done,
                k,
            ) by {
                reveal(Seq::filter);
                assert(date_class(views_of(o0), k) == date_class(done0, k));
                assert(done.drop_last() =~= done0);
                assert(done.last() == pv);
                if pv.1.num() == k {
                    assert forall|t: int|
                        pos <= t < views_of(o0).len() implies (#[trigger] views_of(
                        o0,
                    )[t].1).num() != k by {
                        assert(views_of(o0)[t].1 == o0[t].1);
                        assert(o0[t].1.num() > key);
                    }
                    lemma_date_class_insert_end(views_of(o0), pos as int, pv, k);
                    assert(date_class(done, k) == date_class(done0, k).push(pv));
                } else {
                    lemma_date_class_insert_skip(views_of(o0), pos as int, pv, k);
                    assert(date_class(done, k) == date_class(done0, k));
                }
            }
        }
    }
    proof {
        assert(views_of(v@).to_multiset() =~= Multiset::<(Seq<char>, SnapshotDate)>::empty());
        assert(views_of(out@).to_multiset() =~= orig);
        assert(done =~= iview);
    }
    out
}

/// The shape of a snapshot file name: eight digits, then the fixed suffix.
pub open spec fn is_snapshot_name(nm: Seq<char>) -> bool {
    &&& nm.len() == 8 + snapshot_suffix().len()
    &&& forall|k: int| 0 <= k < 8 ==> is_digit(#[trigger] nm[k])
    &&& nm.subrange(8, nm.len() as int) == snapshot_suffix()
}

/// Every name found in a line list has the snapshot file name shape.
pub proof fn lemma_names_shaped(lines: Seq<Seq<char>>)
    ensures
        forall|i: int|
            0 <= i < names_of_lines(lines).len() ==> is_snapshot_name(
                #[trigger] names_of_lines(lines)[i],
            ),
    decreases lines.len(),
{
    if lines.len() > 0 {
        lemma_names_shaped(lines.skip(1));
        lemma_positions_are_matches(lines[0], 0);
        let first = names_of_line(lines[0]);
        let rest = names_of_lines(lines.skip(1));
        let names = names_of_lines(lines);
        assert forall|i: int| 0 <= i < names.len() implies is_snapshot_name(
            #[trigger] names[i],
        ) by {
            if i < first.len() {
                assert(names[i] == first[i]);
                let ps = match_positions_from(lines[0], 0);
                assert(first[i] == name_at(lines[0], ps[i]));
                lemma_snapshot_name_shape(lines[0], ps[i]);
            } else {
                assert(names[i] == rest[i - first.len()]);
            }
        }
    }
}

/// Builds the dated snapshot entries of a listing text: one entry for each
/// line's last snapshot file name, ordered by date, earliest first, entries
/// of one date in listing order. Fails when a file name's eight-digit
/// prefix is not a calendar date, naming that file.
pub fn files_with_dates_from_listing(content: &str) -> (r: Result<
    Vec<(String, SnapshotDate)>,
    As2orgError,
>)
    ensures
        r is Ok <==> all_dates_valid(snapshot_names(content@)),
        r matches Ok(v) ==> date_sorted(v@),
        r matches Ok(v) ==> views_of(v@).to_multiset() == listing_pairs(content@).to_multiset(),
        r matches Ok(v) ==> v@.len() == snapshot_names(content@).len(),
        r matches Ok(v) ==> forall|i: int| 0 <= i < v@.len() ==> (#[trigger] v@[i].1).valid(),
        r matches Ok(v) ==> forall|i: int|
            0 <= i < v@.len() ==> listing_pairs(content@).contains(#[trigger] views_of(v@)[i]),
        r matches Ok(v) ==> forall|k: int| #[trigger]
            date_class(views_of(v@), k) == date_class(listing_pairs(content@), k),
        r matches Err(e) ==> e matches As2orgError::InvalidDate(nm) && exists|i: int|
            0 <= i < snapshot_names(content@).len() && snapshot_names(content@)[i] == nm@
                && !date_of_digits(nm@).valid(),
{
    let chars = str_to_chars(content);
    let lines = split_lines(&chars);
    let suffix = snapshot_suffix_chars();
    let ghost names = snapshot_names(content@);
    let ghost lviews = views_of_lines(lines@);
    let mut pairs: Vec<(String, SnapshotDate)> = Vec::new();
    let ghost done = Seq::<Seq<char>>::empty();
    let mut li: usize = 0;
    let nl = lines.len();
    proof {
        assert(lviews.skip(0) =~= lviews);
        assert(done + names_of_lines(lviews) =~= names);
        assert(views_of(pairs@) =~= pairs_of_names(done));
    }
    while li < nl
        invariant
            nl == lines@.len(),
            li <= nl,
            suffix@ == snapshot_suffix(),
            lviews == views_of_lines(lines@),
            lviews == split_lines_spec(content@),
            names == snapshot_names(content@),
            done + names_of_lines(lviews.skip(li as int)) == names,
            views_of(pairs@) == pairs_of_names(done),
            all_dates_valid(done),
            pairs@.len() == done.len(),
            forall|i: int| 0 <= i < pairs@.len() ==> (#[trigger] pairs@[i].1).valid(),
        decreases nl - li,
    {
        let line = &lines[li];
        proof {
            assert(lviews.skip(li as int)[0] == lviews[li as int]);
            assert(lviews[li as int] == line@);
            assert(lviews.skip(li as int).skip(1) =~= lviews.skip(li as int + 1));
        }
        let ll = line.len();
        proof {
            assert(names_of_lines(lviews.skip(li as int)) == names_of_line(line@)
                + names_of_lines(lviews.skip(li as int + 1)));
            assert(done + (names_from(line@, 0) + names_of_lines(lviews.skip(li as int + 1)))
                =~= (done + names_from(line@, 0)) + names_of_lines(lviews.skip(li as int + 1)));
        }
        let mut ci: usize = 0;
        while ci < ll
            invariant
                nl == lines@.len(),
                li < nl,
                suffix@ == snapshot_suffix(),
                lviews == views_of_lines(lines@),
                lviews == split_lines_spec(content@),
                names == snapshot_names(content@),
                line@ == lviews[li as int],
                ll == line@.len(),
                ci <= ll,
                (done + names_from(line@, ci as int)) + names_of_lines(
                    lviews.skip(li as int + 1),
                ) == names,
                views_of(pairs@) == pairs_of_names(done),
                all_dates_valid(done),
                pairs@.len() == done.len(),
                forall|i: int| 0 <= i < pairs@.len() ==> (#[trigger] pairs@[i].1).valid(),
            decreases ll - ci,
        {
            if snapshot_match_at(line, &suffix, ci) {
                let ghost nm = name_at(line@, ci as int);
                proof {
                    assert(match_positions_from(line@, ci as int) == seq![ci as int]
                        + match_positions_from(line@, ci as int + 1));
                    assert(names_from(line@, ci as int) =~= seq![nm] + names_from(
                        line@,
                        ci as int + 1,
                    ));
                    assert(names[done.len() as int] == nm) by {
                        assert(((done + names_from(line@, ci as int)) + names_of_lines(
                            lviews.skip(li as int + 1),
                        ))[done.len() as int] == nm);
                    }
                    lemma_snapshot_name_shape(line@, ci as int);
                    assert(ci + 8 + suffix@.len() <= ll);
                }
                let name = subvec(line, ci, ci + 8 + suffix.len());
                match crate::date::parse_yyyymmdd(&name) {
                    None => {
                        let bad = chars_to_string(&name);
                        proof {
                            assert(!date_of_digits(names[done.len() as int]).valid());
                        }
                        return Err(As2orgError::InvalidDate(bad));
                    },
                    Some(date) => {
                        let name_str = chars_to_string(&name);
                        let mut url = String::from_str(base_url());
                        url.append("/");
                        url.append(name_str.as_str());
                        proof {
                            reveal_strlit("/");
                            assert("/"@ =~= seq!['/']);
                            assert(url@ == spec_base_url() + seq!['/'] + nm);
                        }
                        let ghost done0 = done;
                        let ghost pairs0 = pairs@;
                        pairs.push((url, date));
                        proof {
                            done = done0 + seq![nm];
                            assert(name@ == nm);
                            assert(pair_view(pairs@.last()) == spec_pair(nm));
                            assert forall|k: int| 0 <= k < done.len() implies views_of(pairs@)[k]
                                == pairs_of_names(done)[k] by {
                                if k < done0.len() {
                                    assert(views_of(pairs0)[k] == pairs_of_names(done0)[k]);
                                    assert(pairs@[k] == pairs0[k]);
                                    assert(done[k] == done0[k]);
                                } else {
                                    assert(pairs@[k] == pairs@.last());
                                    assert(done[k] == nm);
                                }
                            }
                            assert(views_of(pairs@) =~= pairs_of_names(done));
                            assert((done + names_from(line@, ci as int + 1)) + names_of_lines(
                                lviews.skip(li as int + 1),
                            ) =~= names);
                            assert(all_dates_valid(done)) by {
                                assert(forall|i: int|
                                    0 <= i < done0.len() ==> done[i] == done0[i]);
                                assert(done[done0.len() as int] == nm);
                            }
                        }
                    },
                }
            } else {
                proof {
                    assert(match_positions_from(line@, ci as int) == match_positions_from(
                        line@,
                        ci as int + 1,
                    ));
                    assert(names_from(line@, ci as int) =~= names_from(line@, ci as int + 1));
                }
            }
            ci += 1;
        }
        proof {
            assert(names_from(line@, ll as int) =~= Seq::<Seq<char>>::empty());
            assert((done + names_from(line@, ll as int)) =~= done);
            assert(done + names_of_lines(lviews.skip(li as int + 1)) =~= names);
        }
        li += 1;
    }
    proof {
        assert(lviews.skip(nl as int) =~= Seq::<Seq<char>>::empty());
        assert(done + names_of_lines(lviews.skip(nl as int)) =~= done);
        assert(done =~= names);
    }
    let ghost pview = views_of(pairs@);
    let sorted = sort_pairs_by_date(pairs);
    proof {
        assert(listing_pairs(content@) == pairs_of_names(names));
        assert(pview == listing_pairs(content@));
        assert forall|k: int| #[trigger] date_class(views_of(sorted@), k) == date_class(
            listing_pairs(content@),
            k,
        ) by {
            assert(date_class(views_of(sorted@), k) == date_class(pview, k));
        }
        assert(views_of(sorted@).to_multiset() == listing_pairs(content@).to_multiset());
        assert(all_dates_valid(names));
        assert forall|i: int| 0 <= i < sorted@.len() implies listing_pairs(content@).contains(
            #[trigger] views_of(sorted@)[i],
        ) by {
            views_of(sorted@).to_multiset_ensures();
            listing_pairs(content@).to_multiset_ensures();
            assert(views_of(sorted@).contains(views_of(sorted@)[i]));
            assert(views_of(sorted@).to_multiset().count(views_of(sorted@)[i]) > 0);
            assert(listing_pairs(content@).to_multiset().count(views_of(sorted@)[i]) > 0);
        }
    }
    Ok(sorted)
}

/// In a date-ordered entry list the last entry carries the greatest date:
/// the list's latest entry is its maximum-date entry.
pub proof fn lemma_last_is_latest(s: Seq<(String, SnapshotDate)>)
    requires
        date_sorted(s),
        s.len() > 0,
    ensures
        forall|i: int| 0 <= i < s.len() ==> (#[trigger] s[i].1).num() <= s.last().1.num(),
{
    assert forall|i: int| 0 <= i < s.len() implies (#[trigger] s[i].1).num() <= s.last().1.num()
        by {
        assert(s[i].1.num() <= s[s.len() - 1].1.num());
    }
}

/// Picks the latest entry of a date-ordered entry list: the last one,
/// which carries the greatest date. An empty list is the distinct
/// no-snapshots failure.
pub fn latest_of(files: &Vec<(String, SnapshotDate)>) -> (r: Result<String, As2orgError>)
    ensures
        r is Err <==> files@.len() == 0,
        r matches Err(e) ==> e matches As2orgError::NoSnapshots,
        r matches Ok(u) ==> u@ == files@.last().0@,
        files@.len() > 0 && date_sorted(files@) ==> forall|i: int|
            0 <= i < files@.len() ==> (#[trigger] files@[i].1).num() <= files@.last().1.num(),
{
    proof {
        if files@.len() > 0 && date_sorted(files@) {
            lemma_last_is_latest(files@);
        }
    }
    if files.len() == 0 {
        return Err(As2orgError::NoSnapshots);
    }
    let last = files.len() - 1;
    Ok(files[last].0.clone())
}

/// Discovers the most recent published snapshot: fetches the listing at
/// the base location, reads out the dated snapshot entries, and picks the
/// latest one with `latest_of`. Whatever the fetch hands back, a returned
/// location is the base location, a slash, and a snapshot file name
/// carrying a real calendar date; the no-snapshots failure comes exactly
/// when the fetched listing parsed but held no names.
pub fn get_most_recent_data() -> (r: Result<String, As2orgError>)
    ensures
        r matches Ok(u) ==> exists|nm: Seq<char>|
            is_snapshot_name(nm) && date_of_digits(nm).valid() && u@ == spec_base_url() + seq![
                '/',
            ] + nm,
        r matches Err(e) ==> e matches As2orgError::Transport(_) || e
            matches As2orgError::NoSnapshots || e matches As2orgError::InvalidDate(_),
{
    let content = match crate::io::fetch_text(base_url()) {
        Ok(c) => c,
        Err(m) => {
            return Err(As2orgError::Transport(m));
        },
    };
    let files = match files_with_dates_from_listing(content.as_str()) {
        Ok(f) => f,
        Err(e) => {
            return Err(e);
        },
    };
    let url = match latest_of(&files) {
        Ok(u) => u,
        Err(e) => {
            return Err(e);
        },
    };
    proof {
        let last = files@.len() - 1;
        let pv = pair_view(files@[last as int]);
        assert(views_of(files@)[last as int] == pv);
        assert(listing_pairs(content@).contains(pv));
        let j = choose|j: int|
            0 <= j < listing_pairs(content@).len() && listing_pairs(content@)[j] == pv;
        let names = snapshot_names(content@);
        assert(listing_pairs(content@)[j] == spec_pair(names[j]));
        lemma_names_shaped(split_lines_spec(content@));
        assert(is_snapshot_name(names[j]));
        assert(url@ == spec_base_url() + seq!['/'] + names[j]);
        assert(pv.1 == date_of_digits(names[j]));
        assert(date_of_digits(names[j]).valid());
    }
    Ok(url)
}

} // verus!
