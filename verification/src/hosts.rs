//! The hosts-file safe-merge engine.
//!
//! The platform hosts file is held as an ordered list of byte lines. Two
//! mutations exist, both scoped to the one ownership marker comment:
//! removing every mapping line whose significant hostname belongs to a given
//! set (together with the marker itself), and appending mapping lines that
//! are not yet present, inserting the marker once, just before the first
//! newly appended line, only when it is absent. Every unrelated line is
//! preserved byte for byte and in order. Reading and writing the file itself
//! happens outside the library; both operations report whether anything
//! changed, so a caller can avoid a pointless write.

use vstd::prelude::*;
use crate::lines::clone_bytes;
use crate::lines::has_line;
use crate::lines::has_two_tokens;
use crate::lines::hostname_of;
use crate::lines::is_comment;
use crate::lines::lemma_bytes_deep_view;
use crate::lines::line_is_comment;
use crate::lines::make_pair_line;
use crate::lines::marker_bytes;
use crate::lines::marker_line;
use crate::lines::pair_line;
use crate::lines::second_token;
use crate::lines::bytes_eq;
use crate::lines::lemma_marker_is_comment;
use crate::lines::lemma_pair_line_tokens;
use crate::lines::wf_pair;

verus! {

broadcast use lemma_bytes_deep_view;

/// Whether a removal keeps this line: comments stay unless they are the
/// marker; mapping lines stay unless their significant hostname is among
/// `names`; everything else (blank or single-token lines) stays.
pub open spec fn keep_line(line: Seq<u8>, names: Seq<Seq<u8>>) -> bool {
    if is_comment(line) {
        line != marker_bytes()
    } else if has_two_tokens(line) {
        !names.contains(hostname_of(line))
    } else {
        true
    }
}

/// The lines left after removing the entries for `names`: the subsequence of
/// lines kept by `keep_line`, in their original order.
pub open spec fn filter_spec(lines: Seq<Seq<u8>>, names: Seq<Seq<u8>>) -> Seq<Seq<u8>>
    decreases lines.len(),
{
    if lines.len() == 0 {
        Seq::empty()
    } else {
        let rest = filter_spec(lines.drop_last(), names);
        if keep_line(lines.last(), names) {
            rest.push(lines.last())
        } else {
            rest
        }
    }
}

/// Whether a removal for `names` drops at least one line — the marker, or a
/// mapping line whose significant hostname matches.
pub open spec fn removes_any(lines: Seq<Seq<u8>>, names: Seq<Seq<u8>>) -> bool
    decreases lines.len(),
{
    if lines.len() == 0 {
        false
    } else {
        removes_any(lines.drop_last(), names) || !keep_line(lines.last(), names)
    }
}

/// Adding one canonical line `l`: nothing if it is already present;
/// otherwise it is appended, preceded by the marker when the file does not
/// hold the marker yet.
pub open spec fn add_one(lines: Seq<Seq<u8>>, l: Seq<u8>) -> Seq<Seq<u8>> {
    if lines.contains(l) {
        lines
    } else if lines.contains(marker_bytes()) {
        lines.push(l)
    } else {
        lines.push(marker_bytes()).push(l)
    }
}

/// The lines after adding every pair, first to last, each as its canonical
/// `ip sep hostname` line.
pub open spec fn add_spec(lines: Seq<Seq<u8>>, pairs: Seq<(Seq<u8>, Seq<u8>)>, sep: u8) -> Seq<
    Seq<u8>,
>
    decreases pairs.len(),
{
    if pairs.len() == 0 {
        lines
    } else {
        add_spec(add_one(lines, pair_line(pairs[0].0, pairs[0].1, sep)), pairs.drop_first(), sep)
    }
}

/// Whether adding the pairs appends at least one line.
pub open spec fn adds_any(lines: Seq<Seq<u8>>, pairs: Seq<(Seq<u8>, Seq<u8>)>, sep: u8) -> bool
    decreases pairs.len(),
{
    if pairs.len() == 0 {
        false
    } else {
        !lines.contains(pair_line(pairs[0].0, pairs[0].1, sep)) || adds_any(
            add_one(lines, pair_line(pairs[0].0, pairs[0].1, sep)),
            pairs.drop_first(),
            sep,
        )
    }
}

/// Remove the marker line and every mapping line whose significant hostname
/// is in `host_names`; keep everything else, in order. Returns whether any
/// line was actually removed, which is when the file must be written back.
pub fn filter_hosts_lines(lines: &mut Vec<Vec<u8>>, host_names: &Vec<Vec<u8>>) -> (changed: bool)
    ensures
        final(lines).deep_view() == filter_spec(old(lines).deep_view(), host_names.deep_view()),
        changed == removes_any(old(lines).deep_view(), host_names.deep_view()),
{
    let ghost orig = lines.deep_view();
    let ghost names = host_names.deep_view();
    let marker = marker_line();
    let mut out: Vec<Vec<u8>> = Vec::new();
    let mut changed = false;
    let n = lines.len();
    let mut i: usize = 0;
    while i < n
        invariant
            n == lines@.len(),
            i <= n,
            lines.deep_view() == orig,
            names == host_names.deep_view(),
            marker@ == marker_bytes(),
            out.deep_view() == filter_spec(orig.take(i as int), names),
            changed == removes_any(orig.take(i as int), names),
        decreases n - i,
    {
        proof {
            assert(lines@[i as int].deep_view() == lines@[i as int]@);
            assert(orig[i as int] == lines@[i as int]@);
            assert(orig.take(i as int + 1).drop_last() =~= orig.take(i as int));
            assert(orig.take(i as int + 1).last() == orig[i as int]);
        }
        let line = &lines[i];
        let ghost prev_out = out.deep_view();
        let mut keep = true;
        if line_is_comment(line) {
            if bytes_eq(line, &marker) {
                keep = false;
            }
        } else {
            match second_token(line) {
                Some(h) => {
                    if has_line(host_names, &h) {
                        keep = false;
                    }
                },
                None => {},
            }
        }
        if keep {
            out.push(clone_bytes(line));
            proof {
                assert(out.deep_view() =~= prev_out.push(orig[i as int]));
            }
        } else {
            changed = true;
        }
        i = i + 1;
    }
    proof {
        assert(orig.take(n as int) =~= orig);
    }
    *lines = out;
    changed
}

/// Append the canonical line of every pair not already present, inserting
/// the marker once when it is absent; shared by the space- and
/// tab-separated front ends. Returns whether anything was appended.
pub(crate) fn add_lines_sep(
    lines: &mut Vec<Vec<u8>>,
    hosts: &Vec<(Vec<u8>, Vec<u8>)>,
    sep: u8,
) -> (added: bool)
    ensures
        final(lines).deep_view() == add_spec(old(lines).deep_view(), hosts.deep_view(), sep),
        added == adds_any(old(lines).deep_view(), hosts.deep_view(), sep),
{
    let ghost orig = lines.deep_view();
    let ghost pview = hosts.deep_view();
    let marker = marker_line();
    let mut added = false;
    let n = hosts.len();
    let mut j: usize = 0;
    proof {
        assert(pview.skip(0) =~= pview);
    }
    while j < n
        invariant
            n == hosts@.len(),
            j <= n,
            pview == hosts.deep_view(),
            marker@ == marker_bytes(),
            add_spec(lines.deep_view(), pview.skip(j as int), sep) == add_spec(orig, pview, sep),
            (added || adds_any(lines.deep_view(), pview.skip(j as int), sep)) == adds_any(
                orig,
                pview,
                sep,
            ),
        decreases n - j,
    {
        let ghost cur = lines.deep_view();
        let ghost rest = pview.skip(j as int);
        proof {
            assert(hosts@[j as int].0.deep_view() == hosts@[j as int].0@);
            assert(hosts@[j as int].1.deep_view() == hosts@[j as int].1@);
            assert(pview[j as int] == (hosts@[j as int].0@, hosts@[j as int].1@));
            assert(rest[0] == pview[j as int]);
            assert(rest.drop_first() =~= pview.skip(j as int + 1));
        }
        let l = make_pair_line(&hosts[j].0, &hosts[j].1, sep);
        let ghost lv = pair_line(pview[j as int].0, pview[j as int].1, sep);
        if !has_line(lines, &l) {
            added = true;
            if !has_line(lines, &marker) {
                let ghost before = lines.deep_view();
                lines.push(clone_bytes(&marker));
                proof {
                    assert(lines.deep_view() =~= before.push(marker_bytes()));
                }
            }
            let ghost mid = lines.deep_view();
            lines.push(l);
            proof {
                assert(lines.deep_view() =~= mid.push(lv));
            }
        }
        proof {
            assert(lines.deep_view() == add_one(cur, lv));
            assert(add_spec(cur, rest, sep) == add_spec(add_one(cur, lv), rest.drop_first(), sep));
            assert(adds_any(cur, rest, sep) == (!cur.contains(lv) || adds_any(
                add_one(cur, lv),
                rest.drop_first(),
                sep,
            )));
        }
        j = j + 1;
    }
    proof {
        assert(pview.skip(n as int) =~= Seq::<(Seq<u8>, Seq<u8>)>::empty());
    }
    added
}

/// Append the given `(ip, hostname)` pairs as space-separated mapping
/// lines, skipping pairs whose line is already present, and inserting the
/// marker comment once when it is absent. Returns whether anything was
/// appended.
pub fn add_host_lines(lines: &mut Vec<Vec<u8>>, hosts: &Vec<(Vec<u8>, Vec<u8>)>) -> (added: bool)
    ensures
        final(lines).deep_view() == add_spec(old(lines).deep_view(), hosts.deep_view(), 32),
        added == adds_any(old(lines).deep_view(), hosts.deep_view(), 32),
{
    add_lines_sep(lines, hosts, 32)
}

/// Remove the entries for the given hostnames from the in-memory hosts
/// lines. Returns whether the file must be written back.
pub fn reset_host(lines: &mut Vec<Vec<u8>>, host_names: &Vec<Vec<u8>>) -> (changed: bool)
    ensures
        final(lines).deep_view() == filter_spec(old(lines).deep_view(), host_names.deep_view()),
        changed == removes_any(old(lines).deep_view(), host_names.deep_view()),
{
    filter_hosts_lines(lines, host_names)
}

/// Add the given `(ip, hostname)` pairs to the in-memory hosts lines, space
/// separated. Returns whether the file must be written back.
pub fn add_hosts(lines: &mut Vec<Vec<u8>>, hosts: &Vec<(Vec<u8>, Vec<u8>)>) -> (added: bool)
    ensures
        final(lines).deep_view() == add_spec(old(lines).deep_view(), hosts.deep_view(), 32),
        added == adds_any(old(lines).deep_view(), hosts.deep_view(), 32),
{
    add_lines_sep(lines, hosts, 32)
}

/// How often `l` occurs among `lines`, byte for byte.
pub open spec fn count_of(lines: Seq<Seq<u8>>, l: Seq<u8>) -> nat
    decreases lines.len(),
{
    if lines.len() == 0 {
        0
    } else {
        count_of(lines.drop_last(), l) + if lines.last() == l {
            1nat
        } else {
            0nat
        }
    }
}

proof fn lemma_count_contains(lines: Seq<Seq<u8>>, l: Seq<u8>)
    ensures
        lines.contains(l) <==> count_of(lines, l) > 0,
    decreases lines.len(),
{
    if lines.len() > 0 {
        let dl = lines.drop_last();
        lemma_count_contains(dl, l);
        if lines.contains(l) {
            let i = choose|i: int| 0 <= i < lines.len() && lines[i] == l;
            if i < lines.len() - 1 {
                assert(dl[i] == l);
                assert(dl.contains(l));
            }
        }
        if count_of(lines, l) > 0 {
            if lines.last() == l {
                assert(lines[lines.len() - 1] == l);
                assert(lines.contains(l));
            } else {
                let i = choose|i: int| 0 <= i < dl.len() && dl[i] == l;
                assert(lines[i] == l);
                assert(lines.contains(l));
            }
        }
    }
}

proof fn lemma_contains_push(lines: Seq<Seq<u8>>, x: Seq<u8>, l: Seq<u8>)
    ensures
        lines.push(x).contains(l) <==> (x == l || lines.contains(l)),
{
    if lines.push(x).contains(l) {
        let i = choose|i: int| 0 <= i < lines.push(x).len() && lines.push(x)[i] == l;
        if i < lines.len() {
            assert(lines[i] == l);
            assert(lines.contains(l));
        }
    }
    if x == l {
        assert(lines.push(x)[lines.len() as int] == l);
        assert(lines.push(x).contains(l));
    }
    if lines.contains(l) {
        let i = choose|i: int| 0 <= i < lines.len() && lines[i] == l;
        assert(lines.push(x)[i] == l);
        assert(lines.push(x).contains(l));
    }
}

proof fn lemma_count_push(lines: Seq<Seq<u8>>, x: Seq<u8>, l: Seq<u8>)
    ensures
        count_of(lines.push(x), l) == count_of(lines, l) + if x == l {
            1nat
        } else {
            0nat
        },
{
    assert(lines.push(x).drop_last() =~= lines);
    assert(lines.push(x).last() == x);
}

/// Removing entries is idempotent: a second removal with the same hostnames
/// leaves the lines unchanged and reports that nothing was removed.
pub proof fn lemma_remove_idempotent(lines: Seq<Seq<u8>>, names: Seq<Seq<u8>>)
    ensures
        filter_spec(filter_spec(lines, names), names) == filter_spec(lines, names),
        !removes_any(filter_spec(lines, names), names),
    decreases lines.len(),
{
    if lines.len() > 0 {
        let dl = lines.drop_last();
        lemma_remove_idempotent(dl, names);
        let fd = filter_spec(dl, names);
        if keep_line(lines.last(), names) {
            let f = fd.push(lines.last());
            assert(f.drop_last() =~= fd);
            assert(f.last() == lines.last());
        }
    }
}

/// A removal touches nothing it does not own: where no line is the marker
/// and no mapping line carries one of the hostnames, the lines come back
/// unchanged.
pub proof fn lemma_filter_keeps_all(lines: Seq<Seq<u8>>, names: Seq<Seq<u8>>)
    requires
        forall|i: int| 0 <= i < lines.len() ==> keep_line(#[trigger] lines[i], names),
    ensures
        filter_spec(lines, names) == lines,
    decreases lines.len(),
{
    if lines.len() > 0 {
        let dl = lines.drop_last();
        assert(forall|i: int| 0 <= i < dl.len() ==> dl[i] == lines[i]);
        lemma_filter_keeps_all(dl, names);
        assert(lines[lines.len() - 1] == lines.last());
        assert(dl.push(lines.last()) =~= lines);
    }
}

/// After a removal no marker line is left, whatever was removed.
pub proof fn lemma_remove_scrubs_marker(lines: Seq<Seq<u8>>, names: Seq<Seq<u8>>)
    ensures
        !filter_spec(lines, names).contains(marker_bytes()),
    decreases lines.len(),
{
    if lines.len() > 0 {
        let dl = lines.drop_last();
        lemma_remove_scrubs_marker(dl, names);
        if keep_line(lines.last(), names) {
            assert(lines.last() != marker_bytes());
            lemma_contains_push(filter_spec(dl, names), lines.last(), marker_bytes());
        }
    }
}

proof fn lemma_add_one_contains(lines: Seq<Seq<u8>>, l: Seq<u8>, x: Seq<u8>)
    ensures
        add_one(lines, l).contains(x) <==> (lines.contains(x) || x == l || (x == marker_bytes()
            && !lines.contains(l) && !lines.contains(marker_bytes()))),
{
    if !lines.contains(l) {
        if lines.contains(marker_bytes()) {
            lemma_contains_push(lines, l, x);
        } else {
            lemma_contains_push(lines, marker_bytes(), x);
            lemma_contains_push(lines.push(marker_bytes()), l, x);
        }
    }
}

proof fn lemma_add_noop(base: Seq<Seq<u8>>, pairs: Seq<(Seq<u8>, Seq<u8>)>, sep: u8)
    requires
        forall|k: int|
            0 <= k < pairs.len() ==> base.contains(pair_line(
                #[trigger] pairs[k].0,
                pairs[k].1,
                sep,
            )),
    ensures
        add_spec(base, pairs, sep) == base,
        !adds_any(base, pairs, sep),
    decreases pairs.len(),
{
    if pairs.len() > 0 {
        let rest = pairs.drop_first();
        assert(forall|k: int| 0 <= k < rest.len() ==> rest[k] == pairs[k + 1]);
        lemma_add_noop(base, rest, sep);
    }
}

proof fn lemma_add_keeps_line(lines: Seq<Seq<u8>>, pairs: Seq<(Seq<u8>, Seq<u8>)>, sep: u8, l: Seq<
    u8,
>)
    requires
        lines.contains(l),
    ensures
        add_spec(lines, pairs, sep).contains(l),
    decreases pairs.len(),
{
    if pairs.len() > 0 {
        let l0 = pair_line(pairs[0].0, pairs[0].1, sep);
        lemma_add_one_contains(lines, l0, l);
        lemma_add_keeps_line(add_one(lines, l0), pairs.drop_first(), sep, l);
    }
}

proof fn lemma_add_contains_each(
    lines: Seq<Seq<u8>>,
    pairs: Seq<(Seq<u8>, Seq<u8>)>,
    sep: u8,
    k: int,
)
    requires
        0 <= k < pairs.len(),
    ensures
        add_spec(lines, pairs, sep).contains(pair_line(pairs[k].0, pairs[k].1, sep)),
    decreases pairs.len(),
{
    let l0 = pair_line(pairs[0].0, pairs[0].1, sep);
    let next = add_one(lines, l0);
    if k == 0 {
        lemma_add_one_contains(lines, l0, l0);
        lemma_add_keeps_line(next, pairs.drop_first(), sep, l0);
    } else {
        assert(pairs.drop_first()[k - 1] == pairs[k]);
        lemma_add_contains_each(next, pairs.drop_first(), sep, k - 1);
    }
}

/// Adding entries is idempotent: a second add with the same pairs appends
/// nothing and reports no change.
pub proof fn lemma_add_idempotent(lines: Seq<Seq<u8>>, pairs: Seq<(Seq<u8>, Seq<u8>)>, sep: u8)
    ensures
        add_spec(add_spec(lines, pairs, sep), pairs, sep) == add_spec(lines, pairs, sep),
        !adds_any(add_spec(lines, pairs, sep), pairs, sep),
{
    let r = add_spec(lines, pairs, sep);
    assert forall|k: int| 0 <= k < pairs.len() implies r.contains(pair_line(
        #[trigger] pairs[k].0,
        pairs[k].1,
        sep,
    )) by {
        lemma_add_contains_each(lines, pairs, sep, k);
    }
    lemma_add_noop(r, pairs, sep);
}

proof fn lemma_add_count_stable(
    lines: Seq<Seq<u8>>,
    pairs: Seq<(Seq<u8>, Seq<u8>)>,
    sep: u8,
    l: Seq<u8>,
)
    requires
        lines.contains(l),
        l != marker_bytes(),
    ensures
        count_of(add_spec(lines, pairs, sep), l) == count_of(lines, l),
    decreases pairs.len(),
{
    if pairs.len() > 0 {
        let l0 = pair_line(pairs[0].0, pairs[0].1, sep);
        let next = add_one(lines, l0);
        if !lines.contains(l0) {
            assert(l0 != l);
            if lines.contains(marker_bytes()) {
                lemma_count_push(lines, l0, l);
            } else {
                lemma_count_push(lines, marker_bytes(), l);
                lemma_count_push(lines.push(marker_bytes()), l0, l);
            }
        }
        lemma_add_one_contains(lines, l0, l);
        lemma_add_count_stable(next, pairs.drop_first(), sep, l);
    }
}

/// Adding a pair whose line is absent leaves exactly one occurrence of that
/// line, no matter how often the pair repeats among the added pairs.
pub proof fn lemma_add_single_occurrence(
    lines: Seq<Seq<u8>>,
    pairs: Seq<(Seq<u8>, Seq<u8>)>,
    sep: u8,
    l: Seq<u8>,
)
    requires
        !lines.contains(l),
        l != marker_bytes(),
        exists|k: int|
            0 <= k < pairs.len() && pair_line(#[trigger] pairs[k].0, pairs[k].1, sep) == l,
    ensures
        count_of(add_spec(lines, pairs, sep), l) == 1,
    decreases pairs.len(),
{
    lemma_count_contains(lines, l);
    let l0 = pair_line(pairs[0].0, pairs[0].1, sep);
    let next = add_one(lines, l0);
    if l0 == l {
        if lines.contains(marker_bytes()) {
            lemma_count_push(lines, l0, l);
        } else {
            lemma_count_push(lines, marker_bytes(), l);
            lemma_count_push(lines.push(marker_bytes()), l0, l);
        }
        lemma_add_one_contains(lines, l0, l);
        lemma_count_contains(next, l);
        lemma_add_count_stable(next, pairs.drop_first(), sep, l);
    } else {
        let k = choose|k: int|
            0 <= k < pairs.len() && pair_line(#[trigger] pairs[k].0, pairs[k].1, sep) == l;
        assert(k >= 1);
        assert(pairs.drop_first()[k - 1] == pairs[k]);
        lemma_add_one_contains(lines, l0, l);
        lemma_count_contains(lines, l);
        lemma_add_single_occurrence(next, pairs.drop_first(), sep, l);
    }
}

/// Adding entries never leaves more than one marker line, however often it
/// is invoked: the marker is inserted only when no marker is present.
pub proof fn lemma_marker_at_most_one(lines: Seq<Seq<u8>>, pairs: Seq<(Seq<u8>, Seq<u8>)>, sep: u8)
    requires
        count_of(lines, marker_bytes()) <= 1,
        forall|k: int|
            0 <= k < pairs.len() ==> pair_line(#[trigger] pairs[k].0, pairs[k].1, sep)
                != marker_bytes(),
    ensures
        count_of(add_spec(lines, pairs, sep), marker_bytes()) <= 1,
    decreases pairs.len(),
{
    if pairs.len() > 0 {
        let m = marker_bytes();
        let l0 = pair_line(pairs[0].0, pairs[0].1, sep);
        let next = add_one(lines, l0);
        if !lines.contains(l0) {
            if lines.contains(m) {
                lemma_count_push(lines, l0, m);
            } else {
                lemma_count_contains(lines, m);
                lemma_count_push(lines, m, m);
                lemma_count_push(lines.push(m), l0, m);
            }
        }
        lemma_marker_at_most_one(next, pairs.drop_first(), sep);
    }
}

proof fn lemma_filter_add_one(lines: Seq<Seq<u8>>, l: Seq<u8>, names: Seq<Seq<u8>>)
    requires
        !keep_line(l, names),
    ensures
        filter_spec(add_one(lines, l), names) == filter_spec(lines, names),
{
    if !lines.contains(l) {
        if lines.contains(marker_bytes()) {
            assert(add_one(lines, l) == lines.push(l));
            assert(lines.push(l).drop_last() =~= lines);
            assert(lines.push(l).last() == l);
            assert(filter_spec(lines.push(l), names) == filter_spec(lines, names));
        } else {
            let withm = lines.push(marker_bytes());
            assert(add_one(lines, l) == withm.push(l));
            assert(withm.push(l).drop_last() =~= withm);
            assert(withm.push(l).last() == l);
            assert(withm.drop_last() =~= lines);
            assert(withm.last() == marker_bytes());
            lemma_marker_is_comment();
            assert(!keep_line(marker_bytes(), names));
            assert(filter_spec(withm.push(l), names) == filter_spec(withm, names));
            assert(filter_spec(withm, names) == filter_spec(lines, names));
        }
    }
}

/// Removing the hostnames of freshly added pairs undoes the add: the marker
/// and every appended mapping line go away again, and what else the removal
/// does is exactly what it would have done before the add.
pub proof fn lemma_add_then_remove(
    lines: Seq<Seq<u8>>,
    pairs: Seq<(Seq<u8>, Seq<u8>)>,
    sep: u8,
    names: Seq<Seq<u8>>,
)
    requires
        forall|k: int| 0 <= k < pairs.len() ==> wf_pair(#[trigger] pairs[k].0, pairs[k].1, sep),
        forall|k: int| 0 <= k < pairs.len() ==> names.contains(#[trigger] pairs[k].1),
    ensures
        filter_spec(add_spec(lines, pairs, sep), names) == filter_spec(lines, names),
    decreases pairs.len(),
{
    if pairs.len() > 0 {
        let l0 = pair_line(pairs[0].0, pairs[0].1, sep);
        lemma_pair_line_tokens(pairs[0].0, pairs[0].1, sep);
        assert(!keep_line(l0, names));
        lemma_filter_add_one(lines, l0, names);
        let rest = pairs.drop_first();
        assert(forall|k: int| 0 <= k < rest.len() ==> rest[k] == pairs[k + 1]);
        lemma_add_then_remove(add_one(lines, l0), rest, sep, names);
    }
}

/// Round trip: on a file that holds no marker and nothing mapped to the
/// added hostnames, adding pairs and then removing their hostnames restores
/// the file byte for byte.
pub proof fn lemma_round_trip(
    lines: Seq<Seq<u8>>,
    pairs: Seq<(Seq<u8>, Seq<u8>)>,
    sep: u8,
    names: Seq<Seq<u8>>,
)
    requires
        forall|i: int| 0 <= i < lines.len() ==> keep_line(#[trigger] lines[i], names),
        forall|k: int| 0 <= k < pairs.len() ==> wf_pair(#[trigger] pairs[k].0, pairs[k].1, sep),
        forall|k: int| 0 <= k < pairs.len() ==> names.contains(#[trigger] pairs[k].1),
    ensures
        filter_spec(add_spec(lines, pairs, sep), names) == lines,
{
    lemma_add_then_remove(lines, pairs, sep, names);
    lemma_filter_keeps_all(lines, names);
}

} // verus!
