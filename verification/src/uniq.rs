//! The streaming adjacent-duplicate-line detector.
//!
//! Consecutive input lines whose content is equal once the trailing line
//! terminator is stripped form a *run*. For every run exactly one line is
//! emitted: its first line, the *representative*, verbatim with its
//! original terminator, optionally preceded by the run's length
//! right-justified in a four-byte field and one space.

use vstd::prelude::*;

use crate::fmt::format_padded;
use crate::fmt::padded;
use crate::lines::LF;
use crate::lines::all_end_lf;
use crate::lines::append_bytes;
use crate::lines::concat_lines;
use crate::lines::copy_bytes;
use crate::lines::lemma_concat_split_inverse;
use crate::lines::lemma_split_lines_shaped;
use crate::lines::line_shaped;
use crate::lines::lines_match;
use crate::lines::split_lines_spec;
use crate::lines::strip_term;
use crate::lines::views;

verus! {

/// The groups of `lines`: one `(representative, count)` pair per maximal
/// run of consecutive terminator-stripped-equal lines, in input order.
/// A new line joins the last group exactly when its stripped content
/// equals the stripped content of that group's representative; the
/// representative itself is always the first line of its run.
pub open spec fn group_counts(lines: Seq<Seq<u8>>) -> Seq<(Seq<u8>, nat)>
    decreases lines.len(),
{
    if lines.len() == 0 {
        Seq::empty()
    } else {
        let prev = group_counts(lines.drop_last());
        let l = lines.last();
        if prev.len() > 0 && strip_term(l) == strip_term(prev.last().0) {
            prev.update(prev.len() - 1, (prev.last().0, (prev.last().1 + 1) as nat))
        } else {
            prev.push((l, 1nat))
        }
    }
}

/// The total number of lines the groups account for.
pub open spec fn sum_counts(groups: Seq<(Seq<u8>, nat)>) -> nat
    decreases groups.len(),
{
    if groups.len() == 0 {
        0
    } else {
        sum_counts(groups.drop_last()) + groups.last().1
    }
}

/// The representatives of the groups, in order, counts dropped.
pub open spec fn reps(groups: Seq<(Seq<u8>, nat)>) -> Seq<Seq<u8>> {
    groups.map_values(|g: (Seq<u8>, nat)| g.0)
}

/// Well-formed grouping: every group holds at least one line, and the
/// representatives of adjacent groups differ once their terminators are
/// stripped.
pub open spec fn wf_groups(groups: Seq<(Seq<u8>, nat)>) -> bool {
    &&& forall|i: int| 0 <= i < groups.len() ==> (#[trigger] groups[i]).1 >= 1
    &&& forall|i: int|
        0 < i < groups.len() ==> strip_term((#[trigger] groups[i]).0) != strip_term(
            groups[i - 1].0,
        )
}

/// Law: the counts emitted for an input add up to its number of lines.
pub proof fn lemma_counts_cover_lines(lines: Seq<Seq<u8>>)
    ensures
        sum_counts(group_counts(lines)) == lines.len(),
    decreases lines.len(),
{
    if lines.len() > 0 {
        lemma_counts_cover_lines(lines.drop_last());
        let prev = group_counts(lines.drop_last());
        let l = lines.last();
        if prev.len() > 0 && strip_term(l) == strip_term(prev.last().0) {
            let r = prev.update(prev.len() - 1, (prev.last().0, (prev.last().1 + 1) as nat));
            assert(r.drop_last() =~= prev.drop_last());
            assert(r.last() == (prev.last().0, (prev.last().1 + 1) as nat));
        } else {
            assert(prev.push((l, 1nat)).drop_last() =~= prev);
        }
    }
}

/// Law: the groups of an input are its maximal runs — each holds at least
/// one line, and no two adjacent groups could be merged, their stripped
/// representatives being distinct.
pub proof fn lemma_groups_maximal(lines: Seq<Seq<u8>>)
    ensures
        wf_groups(group_counts(lines)),
    decreases lines.len(),
{
    if lines.len() > 0 {
        lemma_groups_maximal(lines.drop_last());
        let prev = group_counts(lines.drop_last());
        let l = lines.last();
        let r = group_counts(lines);
        if prev.len() > 0 && strip_term(l) == strip_term(prev.last().0) {
            assert forall|i: int| 0 <= i < r.len() implies (#[trigger] r[i]).1 >= 1 by {
                if i < prev.len() - 1 {
                    assert(r[i] == prev[i]);
                }
            }
            assert forall|i: int|
                0 < i < r.len() implies strip_term((#[trigger] r[i]).0) != strip_term(
                r[i - 1].0,
            ) by {
                assert(r[i].0 == prev[i].0);
                assert(r[i - 1].0 == prev[i - 1].0);
            }
        } else {
            assert forall|i: int| 0 <= i < r.len() implies (#[trigger] r[i]).1 >= 1 by {
                if i < prev.len() {
                    assert(r[i] == prev[i]);
                }
            }
            assert forall|i: int|
                0 < i < r.len() implies strip_term((#[trigger] r[i]).0) != strip_term(
                r[i - 1].0,
            ) by {
                if i < prev.len() {
                    assert(r[i] == prev[i]);
                    assert(r[i - 1] == prev[i - 1]);
                } else {
                    assert(r[i] == (l, 1nat));
                    if prev.len() > 0 {
                        assert(r[i - 1] == prev[prev.len() - 1]);
                    }
                }
            }
        }
    }
}

/// Helper for the idempotence law: grouping the representatives of a
/// well-formed grouping yields the same representatives, one line each.
proof fn lemma_regroup_wf(groups: Seq<(Seq<u8>, nat)>)
    requires
        wf_groups(groups),
    ensures
        group_counts(reps(groups)) == groups.map_values(|g: (Seq<u8>, nat)| (g.0, 1nat)),
    decreases groups.len(),
{
    let f = |g: (Seq<u8>, nat)| (g.0, 1nat);
    if groups.len() == 0 {
        assert(reps(groups) =~= Seq::<Seq<u8>>::empty());
        assert(group_counts(reps(groups)) =~= groups.map_values(f));
    } else {
        let h = groups.drop_last();
        assert(wf_groups(h)) by {
            assert forall|i: int| 0 <= i < h.len() implies (#[trigger] h[i]).1 >= 1 by {
                assert(h[i] == groups[i]);
            }
            assert forall|i: int|
                0 < i < h.len() implies strip_term((#[trigger] h[i]).0) != strip_term(
                h[i - 1].0,
            ) by {
                assert(h[i] == groups[i]);
                assert(h[i - 1] == groups[i - 1]);
            }
        }
        lemma_regroup_wf(h);
        assert(reps(groups).drop_last() =~~= reps(h));
        assert(reps(groups).last() == groups.last().0);
        let prev = group_counts(reps(h));
        if h.len() > 0 {
            assert(prev.last() == (h.last().0, 1nat));
            assert(strip_term(groups.last().0) != strip_term(h.last().0)) by {
                assert(groups[groups.len() - 1] == groups.last());
                assert(groups[groups.len() - 2] == h.last());
            }
        }
        assert(group_counts(reps(groups)) =~~= groups.map_values(f));
    }
}

/// Law (idempotence): feeding the emitted representatives back through the
/// grouping yields the same representatives again, each now a run of one.
pub proof fn lemma_grouping_idempotent(lines: Seq<Seq<u8>>)
    ensures
        group_counts(reps(group_counts(lines))) == group_counts(lines).map_values(
            |g: (Seq<u8>, nat)| (g.0, 1nat),
        ),
        reps(group_counts(reps(group_counts(lines)))) == reps(group_counts(lines)),
{
    lemma_groups_maximal(lines);
    lemma_regroup_wf(group_counts(lines));
    assert(reps(group_counts(reps(group_counts(lines)))) =~~= reps(group_counts(lines)));
}

/// With counts off the rendering is the representatives laid end to end.
pub proof fn lemma_render_plain(groups: Seq<(Seq<u8>, nat)>)
    ensures
        render_groups(groups, false) == concat_lines(reps(groups)),
    decreases groups.len(),
{
    if groups.len() == 0 {
        assert(reps(groups) =~= Seq::<Seq<u8>>::empty());
    } else {
        lemma_render_plain(groups.drop_last());
        assert(reps(groups).drop_last() =~~= reps(groups.drop_last()));
        assert(reps(groups).last() == groups.last().0);
        assert(reps(groups).len() > 0);
    }
}

/// The representatives inherit the splitter's line shape: each is an
/// input line, only the last group's possibly unterminated.
proof fn lemma_reps_shaped(lines: Seq<Seq<u8>>)
    requires
        line_shaped(lines),
    ensures
        line_shaped(reps(group_counts(lines))),
        all_end_lf(lines) ==> all_end_lf(reps(group_counts(lines))),
    decreases lines.len(),
{
    if lines.len() > 0 {
        let h = lines.drop_last();
        let l = lines.last();
        assert(line_shaped(h) && all_end_lf(h)) by {
            assert forall|i: int| 0 <= i < h.len() implies (#[trigger] h[i]).len() > 0 by {
                assert(h[i] == lines[i]);
            }
            assert forall|i: int, j: int|
                0 <= i < h.len() && 0 <= j < h[i].len() - 1 implies (#[trigger] h[i][j]) != LF by {
                assert(h[i] == lines[i]);
            }
            assert forall|i: int| 0 <= i < h.len() implies (#[trigger] h[i]).last() == LF by {
                assert(h[i] == lines[i]);
            }
        }
        lemma_reps_shaped(h);
        let prev = group_counts(h);
        let rh = reps(prev);
        let r = group_counts(lines);
        if prev.len() > 0 && strip_term(l) == strip_term(prev.last().0) {
            assert(reps(r) =~~= rh);
        } else {
            assert(reps(r) =~~= rh.push(l));
            assert forall|i: int| 0 <= i < reps(r).len() implies (#[trigger] reps(r)[i]).len()
                > 0 by {
                if i < rh.len() {
                    assert(reps(r)[i] == rh[i]);
                } else {
                    assert(reps(r)[i] == l);
                    assert(lines[lines.len() - 1] == l);
                }
            }
            assert forall|i: int, j: int|
                0 <= i < reps(r).len() && 0 <= j < reps(r)[i].len() - 1 implies (#[trigger] reps(
                r,
            )[i][j]) != LF by {
                if i < rh.len() {
                    assert(reps(r)[i] == rh[i]);
                } else {
                    assert(reps(r)[i] == l);
                    assert(lines[lines.len() - 1] == l);
                }
            }
            assert forall|i: int| 0 <= i < reps(r).len() - 1 implies (#[trigger] reps(r)[i]).last()
                == LF by {
                assert(reps(r)[i] == rh[i]);
            }
            if all_end_lf(lines) {
                assert forall|i: int| 0 <= i < reps(r).len() implies (#[trigger] reps(
                    r,
                )[i]).last() == LF by {
                    if i < rh.len() {
                        assert(reps(r)[i] == rh[i]);
                    } else {
                        assert(reps(r)[i] == l);
                        assert(lines[lines.len() - 1] == l);
                    }
                }
            }
        }
    }
}

/// Law: the engine's plain output is a fixed point — deduplicating a byte
/// stream that the engine already deduplicated changes nothing.
pub proof fn lemma_uniq_output_stable(data: Seq<u8>)
    ensures
        render_groups(
            group_counts(split_lines_spec(render_groups(group_counts(split_lines_spec(data)), false))),
            false,
        ) == render_groups(group_counts(split_lines_spec(data)), false),
{
    let ls = split_lines_spec(data);
    let gs = group_counts(ls);
    let rs = reps(gs);
    let once = render_groups(gs, false);
    lemma_split_lines_shaped(data);
    lemma_render_plain(gs);
    lemma_reps_shaped(ls);
    lemma_concat_split_inverse(rs);
    assert(split_lines_spec(once) == rs);
    lemma_groups_maximal(ls);
    lemma_regroup_wf(gs);
    lemma_render_plain(group_counts(rs));
    assert(reps(group_counts(rs)) =~~= rs);
}

/// The bytes emitted for one finished group: the representative verbatim,
/// preceded, when counting, by the count right-justified in a four-byte
/// field and a single space.
pub open spec fn render_group(rep: Seq<u8>, count: nat, show_counts: bool) -> Seq<u8> {
    if show_counts {
        padded(count, 4) + seq![32u8] + rep
    } else {
        rep
    }
}

/// The bytes emitted for a sequence of finished groups, in order.
pub open spec fn render_groups(groups: Seq<(Seq<u8>, nat)>, show_counts: bool) -> Seq<u8>
    decreases groups.len(),
{
    if groups.len() == 0 {
        Seq::empty()
    } else {
        render_groups(groups.drop_last(), show_counts)
            + render_group(groups.last().0, groups.last().1, show_counts)
    }
}

/// Rendering one more group appends that group's bytes.
pub proof fn lemma_render_groups_push(groups: Seq<(Seq<u8>, nat)>, g: (Seq<u8>, nat), sc: bool)
    ensures
        render_groups(groups.push(g), sc) == render_groups(groups, sc) + render_group(g.0, g.1, sc),
{
    assert(groups.push(g).drop_last() =~= groups);
    assert(groups.push(g).last() == g);
}

/// The bytes emitted for a group of `count` lines represented by `rep`.
fn render_group_exec(rep: &Vec<u8>, count: u64, show_counts: bool) -> (out: Vec<u8>)
    ensures
        out@ == render_group(rep@, count as nat, show_counts),
{
    if show_counts {
        let mut out = format_padded(count, 4);
        out.push(32);
        append_bytes(&mut out, rep);
        proof {
            assert(out@ =~= render_group(rep@, count as nat, show_counts));
        }
        out
    } else {
        copy_bytes(rep)
    }
}

/// The engine's state: the representative of the run being accumulated and
/// how many lines of the run have been seen; no run is active while the
/// count is zero.
pub struct Deduplicator {
    representative: Vec<u8>,
    count: u64,
    show_counts: bool,
}

impl Deduplicator {
    /// The representative of the run being accumulated.
    pub closed spec fn rep(self) -> Seq<u8> {
        self.representative@
    }

    /// How many lines of the current run have been seen; zero when no run
    /// is active.
    pub closed spec fn pending(self) -> nat {
        self.count as nat
    }

    /// Whether emitted groups carry their count.
    pub closed spec fn counting(self) -> bool {
        self.show_counts
    }

    /// How many lines of the current run have been seen, for callers that
    /// must stay clear of the counter's ceiling.
    pub fn pending_count(&self) -> (n: u64)
        ensures
            n == self.pending(),
    {
        self.count
    }

    /// A fresh engine with no active run.
    pub fn new(show_counts: bool) -> (d: Deduplicator)
        ensures
            d.pending() == 0,
            d.counting() == show_counts,
    {
        Deduplicator { representative: Vec::new(), count: 0, show_counts }
    }

    /// Feeds one line. When the line continues the current run the count
    /// grows and nothing is emitted; when it starts a new run the finished
    /// group's bytes are returned for the caller to write.
    pub fn push(&mut self, line: &Vec<u8>) -> (out: Option<Vec<u8>>)
        requires
            old(self).pending() < u64::MAX,
        ensures
            final(self).counting() == old(self).counting(),
            final(self).pending() >= 1,
            old(self).pending() == 0 ==> final(self).rep() == line@ && final(self).pending() == 1
                && out is None,
            old(self).pending() > 0 && strip_term(line@) == strip_term(old(self).rep())
                ==> final(self).rep() == old(self).rep()
                && final(self).pending() == old(self).pending() + 1 && out is None,
            old(self).pending() > 0 && strip_term(line@) != strip_term(old(self).rep())
                ==> final(self).rep() == line@ && final(self).pending() == 1
                && (out matches Some(v) && v@ == render_group(
                    old(self).rep(),
                    old(self).pending(),
                    old(self).counting(),
                )),
    {
        if self.count == 0 {
            self.representative = copy_bytes(line);
            self.count = 1;
            None
        } else if lines_match(line, &self.representative) {
            self.count = self.count + 1;
            None
        } else {
            let flushed = render_group_exec(&self.representative, self.count, self.show_counts);
            self.representative = copy_bytes(line);
            self.count = 1;
            Some(flushed)
        }
    }

    /// Ends the input: the still-open group, if any, is returned for the
    /// caller to write, and the engine is left with no active run. With no
    /// active run nothing is emitted, so empty input emits nothing.
    pub fn finish(&mut self) -> (out: Option<Vec<u8>>)
        ensures
            final(self).pending() == 0,
            final(self).counting() == old(self).counting(),
            old(self).pending() == 0 ==> out is None,
            old(self).pending() > 0 ==> (out matches Some(v) && v@ == render_group(
                old(self).rep(),
                old(self).pending(),
                old(self).counting(),
            )),
    {
        if self.count == 0 {
            None
        } else {
            let flushed = render_group_exec(&self.representative, self.count, self.show_counts);
            self.count = 0;
            Some(flushed)
        }
    }
}

/// Runs the engine over a whole input: the result is exactly the rendering
/// of the input's groups, one representative per maximal run, with counts
/// when `show_counts` is set.
pub fn process_lines(lines: &Vec<Vec<u8>>, show_counts: bool) -> (out: Vec<u8>)
    requires
        lines@.len() < u64::MAX,
    ensures
        out@ == render_groups(group_counts(views(lines@)), show_counts),
{
    let mut d = Deduplicator::new(show_counts);
    let mut out: Vec<u8> = Vec::new();
    let ghost mut emitted: Seq<(Seq<u8>, nat)> = Seq::empty();
    let mut i: usize = 0;
    while i < lines.len()
        invariant
            i <= lines@.len(),
            lines@.len() < u64::MAX,
            d.counting() == show_counts,
            d.pending() <= i,
            d.pending() == 0 ==> i == 0 && emitted == Seq::<(Seq<u8>, nat)>::empty(),
            d.pending() > 0 ==> group_counts(views(lines@.take(i as int))) == emitted.push(
                (d.rep(), d.pending()),
            ),
            out@ == render_groups(emitted, show_counts),
        decreases lines@.len() - i,
    {
        let line: &Vec<u8> = &lines[i];
        let ghost pre = views(lines@.take(i as int));
        let ghost post = views(lines@.take(i + 1));
        let ghost old_d = d;
        proof {
            assert(post.drop_last() =~~= pre);
            assert(post.last() == lines@[i as int]@);
        }
        let flushed = d.push(line);
        match flushed {
            Some(bytes) => {
                let ghost g = (old_d.rep(), old_d.pending());
                let ghost em0 = emitted;
                proof {
                    assert(group_counts(post) =~= em0.push(g).push((d.rep(), d.pending())));
                    emitted = em0.push(g);
                    lemma_render_groups_push(em0, g, show_counts);
                }
                append_bytes(&mut out, &bytes);
            },
            None => {
                proof {
                    if old_d.pending() == 0 {
                        assert(pre =~= Seq::<Seq<u8>>::empty());
                        assert(group_counts(pre) =~= Seq::<(Seq<u8>, nat)>::empty());
                        assert(group_counts(post) =~= emitted.push((d.rep(), d.pending())));
                    } else {
                        let prev = group_counts(pre);
                        assert(prev.update(
                            prev.len() - 1,
                            (prev.last().0, (prev.last().1 + 1) as nat),
                        ) =~= emitted.push((d.rep(), d.pending())));
                    }
                }
            },
        }
        i += 1;
    }
    proof {
        assert(lines@.take(lines@.len() as int) =~= lines@);
    }
    let ghost fin_d = d;
    let tail = d.finish();
    match tail {
        Some(bytes) => {
            let ghost g = (fin_d.rep(), fin_d.pending());
            let ghost em0 = emitted;
            proof {
                emitted = em0.push(g);
                lemma_render_groups_push(em0, g, show_counts);
            }
            append_bytes(&mut out, &bytes);
        },
        None => {
            proof {
                assert(views(lines@) =~= Seq::<Seq<u8>>::empty());
            }
        },
    }
    out
}

} // verus!
