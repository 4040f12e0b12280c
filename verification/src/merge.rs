//! The merge stage: groups closed runs into fan-in batches and k-way merges
//! each batch through the winner tree, emitting a sorted stream.

use vstd::prelude::*;

use vstd::multiset::Multiset;

use crate::config::Configuration;
use crate::error::SortError;
use crate::heap::{HeapOrd, WinnerHeap};
use crate::line::Line;
use crate::lines::Lines;
use crate::model::{
    no_newline, lines_of, unlines, lex_leq, key_of, line_leq, sorted_lines, some_line_at_least,
    lemma_lex_total, lemma_lex_trans, lemma_round_trip,
};
use crate::sort::{runs_lines, run_sorted};
use crate::tempfile::{ClosedTmpFile, TmpDir, TmpFileClosed, TmpFileOpened, TmpFileRead, TmpFileReader, TmpFileWrite, TmpFileWriter};
use crate::util::into_chunks;

verus! {

broadcast use vstd::seq_lib::group_to_multiset_ensures;

/// One heap item of the merger: a line and the index of its source stream.
pub struct MergeItem {
    pub line: Line,
    pub source: usize,
}

impl HeapOrd for MergeItem {
    /// Items rank by the reverse of the lexicographic key order, so the
    /// max-first winner tree yields the least key first; the source index
    /// does not enter the order.
    open spec fn le_spec(self, other: Self) -> bool {
        lex_leq(other.line.skey(), self.line.skey())
    }

    proof fn lemma_le_total(a: Self, b: Self) {
        lemma_lex_total(a.line.skey(), b.line.skey());
    }

    proof fn lemma_le_trans(a: Self, b: Self, c: Self) {
        lemma_lex_trans(c.line.skey(), b.line.skey(), a.line.skey());
    }

    fn le(&self, other: &Self) -> (r: bool) {
        other.line.key_le(&self.line)
    }
}

/// The byte strings of the lines still pending in every source stream.
spec fn pendings(its: Seq<Lines<TmpFileReader>>) -> Seq<Seq<u8>> {
    its.map_values(|l: Lines<TmpFileReader>| l.pending_lines()).flatten()
}

/// A live heap entry: a valid source index, a properly keyed line, and a
/// line at or below everything its source still holds.
spec fn entry_ok(e: MergeItem, its: Seq<Lines<TmpFileReader>>, d: u8, fi: nat) -> bool {
    &&& e.source < its.len()
    &&& e.line.keyed(d, fi)
    &&& forall|p: int|
        0 <= p < its[e.source as int].pending_lines().len() ==> lex_leq(
            e.line.skey(),
            key_of(#[trigger] its[e.source as int].pending_lines()[p], d, fi),
        )
}

/// A flattened sequence splits around any one of its parts.
proof fn lemma_flatten_split<A>(s: Seq<Seq<A>>, i: int)
    requires
        0 <= i < s.len(),
    ensures
        s.flatten() == s.take(i).flatten() + s[i] + s.skip(i + 1).flatten(),
{
    broadcast use Seq::lemma_flatten_singleton;

    assert(s =~= s.take(i) + (seq![s[i]] + s.skip(i + 1)));
    vstd::seq_lib::lemma_flatten_concat(s.take(i), seq![s[i]] + s.skip(i + 1));
    vstd::seq_lib::lemma_flatten_concat(seq![s[i]], s.skip(i + 1));
    assert(seq![s[i]].flatten() =~= s[i]);
    assert(s.take(i).flatten() + (s[i] + s.skip(i + 1).flatten()) =~= s.take(i).flatten() + s[i]
        + s.skip(i + 1).flatten());
}

/// A flattening of empty parts is empty.
proof fn lemma_flatten_empty<A>(s: Seq<Seq<A>>)
    requires
        forall|i: int| 0 <= i < s.len() ==> (#[trigger] s[i]).len() == 0,
    ensures
        s.flatten().len() == 0,
    decreases s.len(),
{
    if s.len() > 0 {
        lemma_flatten_empty(s.drop_first());
        assert(s.flatten() == s.first() + s.drop_first().flatten());
    }
}

/// How one pull from source `i` changes the pending multiset: the stream's
/// first pending line moves out.
proof fn lemma_pendings_pull(
    its0: Seq<Lines<TmpFileReader>>,
    its1: Seq<Lines<TmpFileReader>>,
    i: int,
)
    requires
        0 <= i < its0.len(),
        its1.len() == its0.len(),
        forall|j: int| 0 <= j < its0.len() && j != i ==> its1[j] == its0[j],
        its0[i].pending_lines().len() > 0,
        its1[i].pending_lines() == its0[i].pending_lines().drop_first(),
    ensures
        pendings(its0).to_multiset() == pendings(its1).to_multiset().insert(
            its0[i].pending_lines()[0],
        ),
        pendings(its1).len() + 1 == pendings(its0).len(),
{
    let f = |l: Lines<TmpFileReader>| l.pending_lines();
    let m0 = its0.map_values(f);
    let m1 = its1.map_values(f);
    lemma_flatten_split(m0, i);
    lemma_flatten_split(m1, i);
    assert(m0.take(i) =~= m1.take(i));
    assert(m0.skip(i + 1) =~= m1.skip(i + 1));
    let a = m1.take(i).flatten();
    let b = m1.skip(i + 1).flatten();
    let x = its0[i].pending_lines()[0];
    assert(m0[i] =~= seq![x] + m1[i]);
    assert(pendings(its0) =~= a + (seq![x] + m1[i]) + b);
    assert(pendings(its1) =~= a + m1[i] + b);
    // count the multisets by concatenation
    vstd::seq_lib::lemma_multiset_commutative(a + (seq![x] + m1[i]), b);
    vstd::seq_lib::lemma_multiset_commutative(a, seq![x] + m1[i]);
    vstd::seq_lib::lemma_multiset_commutative(seq![x], m1[i]);
    vstd::seq_lib::lemma_multiset_commutative(a + m1[i], b);
    vstd::seq_lib::lemma_multiset_commutative(a, m1[i]);
    assert(seq![x].to_multiset() =~= Multiset::<Seq<u8>>::empty().insert(x)) by {
        assert(seq![x] =~= Seq::<Seq<u8>>::empty().push(x));
        assert(Seq::<Seq<u8>>::empty().to_multiset() =~= Multiset::<Seq<u8>>::empty());
    }
    assert(pendings(its0).to_multiset() =~= pendings(its1).to_multiset().insert(x));
}

/// The per-source read budget of a merge over `k` runs.
pub open spec fn merge_read_buffer(c: Configuration, k: int) -> int {
    let per = c.buffer_size as int / k;
    let capped = if 41943040 <= per {
        41943040int
    } else {
        per
    };
    if capped >= 1 {
        capped
    } else {
        1int
    }
}

/// Merges the given sorted runs into `out`: their lines, in non-decreasing
/// key order, each followed by one newline.  On failure `out` is untouched.
pub fn merge_and_write(files: Vec<ClosedTmpFile>, out: &mut Vec<u8>, config: &Configuration) -> (r:
    Result<(), SortError>)
    requires
        1 <= files@.len() <= usize::MAX / 4,
        config.buffer_size >= files@.len(),
        forall|i: int|
            0 <= i < files@.len() ==> run_sorted(
                #[trigger] files@[i],
                config.delimiter,
                config.field as nat,
            ),
    ensures
        match r {
            Ok(()) => ({
                let added = final(out)@.skip(old(out)@.len() as int);
                &&& final(out)@ == old(out)@ + added
                &&& added == unlines(lines_of(added))
                &&& lines_of(added).to_multiset() == runs_lines(files@).to_multiset()
                &&& sorted_lines(lines_of(added), config.delimiter, config.field as nat)
                &&& !some_line_at_least(
                    runs_lines(files@),
                    merge_read_buffer(*config, files@.len() as int),
                )
            }),
            Err(e) => {
                &&& final(out)@ == old(out)@
                &&& e == (SortError::LineTooLarge {
                    buffer_size: merge_read_buffer(*config, files@.len() as int) as usize,
                })
                &&& some_line_at_least(
                    runs_lines(files@),
                    merge_read_buffer(*config, files@.len() as int),
                )
            },
        },
{
    let ghost d = config.delimiter;
    let ghost fi = config.field as nat;
    let ghost files0 = files@;
    let ghost total = runs_lines(files0).to_multiset();
    let k = files.len();
    let per = config.buffer_size / k;
    let mib40 = (40 * crate::config::mebibyte()) as usize;
    let capped = if mib40 <= per {
        mib40
    } else {
        per
    };
    let bsz = if capped >= 1 {
        capped
    } else {
        1
    };
    proof {
        assert(bsz as int == merge_read_buffer(*config, k as int));
        assert(bsz >= 1);
    }

    // reopen every run, in order, behind a buffered line stream
    let mut queue = files;
    let mut its: Vec<Lines<TmpFileReader>> = Vec::new();
    while queue.len() > 0
        invariant
            out@ == old(out)@,
            1 <= bsz,
            its@.len() + queue@.len() == files0.len(),
            queue@ == files0.skip(its@.len() as int),
            forall|i: int|
                0 <= i < its@.len() ==> (#[trigger] its@[i]).wf() && its@[i].spec_config()
                    == *config && its@[i].spec_buffer_size() == bsz && its@[i].pending_lines()
                    == lines_of(files0[i].spec_contents()),
        decreases queue@.len(),
    {
        let ghost nits = its@.len() as int;
        let f = queue.remove(0);
        proof {
            assert(files0.skip(nits)[0] == files0[nits]);
            assert(files0.skip(nits).remove(0) =~= files0.skip(nits + 1));
        }
        let reader = f.reopen();
        proof {
            reader.lemma_fresh_reader();
        }
        its.push(Lines::new(reader, bsz, *config));
    }

    // pull the first line of each non-empty source
    let mut items: Vec<MergeItem> = Vec::new();
    let mut i: usize = 0;
    proof {
        assert(its@.map_values(|l: Lines<TmpFileReader>| l.pending_lines()) =~= files0.map_values(
            |x: ClosedTmpFile| lines_of(x.spec_contents()),
        ));
        assert(pendings(its@) =~= runs_lines(files0));
        assert(items@.map_values(|e: MergeItem| e.line.sbytes()).to_multiset().add(
            pendings(its@).to_multiset(),
        ) =~= total);
    }
    while i < its.len()
        invariant
            out@ == old(out)@,
            its@.len() == k,
            1 <= k,
            1 <= bsz,
            bsz as int == merge_read_buffer(*config, k as int),
            k as int == files@.len(),
            i <= k,
            items@.len() <= i,
            forall|j: int|
                0 <= j < k ==> (#[trigger] its@[j]).wf() && its@[j].spec_config() == *config
                    && its@[j].spec_buffer_size() == bsz && sorted_lines(
                    its@[j].pending_lines(),
                    d,
                    fi,
                ),
            forall|m: int| 0 <= m < items@.len() ==> entry_ok(#[trigger] items@[m], its@, d, fi),
            forall|m: int|
                0 <= m < items@.len() ==> (#[trigger] items@[m]).line.sbytes().len() < bsz,
            forall|j: int|
                0 <= j < i && (#[trigger] its@[j]).pending_lines().len() > 0 ==> exists|m: int|
                    0 <= m < items@.len() && items@[m].source == j,
            items@.map_values(|e: MergeItem| e.line.sbytes()).to_multiset().add(
                pendings(its@).to_multiset(),
            ) == total,
            total == runs_lines(files0).to_multiset(),
            files0 == files@,
            d == config.delimiter,
            fi == config.field as nat,
        decreases k - i,
    {
        let ghost its_before = its@;
        let ghost pend_before = its@[i as int].pending_lines();
        let nxt = its[i].next();
        match nxt {
            Ok(Some(l)) => {
                let ghost items_before = items@;
                items.push(MergeItem { line: l, source: i });
                proof {
                    assert(its@ =~= its_before.update(i as int, its@[i as int]));
                    lemma_pendings_pull(its_before, its@, i as int);
                    let e = (MergeItem { line: l, source: i });
                    assert(entry_ok(e, its@, d, fi)) by {
                        assert forall|p: int|
                            0 <= p < its@[i as int].pending_lines().len() implies lex_leq(
                            e.line.skey(),
                            key_of(#[trigger] its@[i as int].pending_lines()[p], d, fi),
                        ) by {
                            assert(its@[i as int].pending_lines()[p] == pend_before[p + 1]);
                            assert(line_leq(pend_before[0], pend_before[p + 1], d, fi));
                            assert(l.sbytes() == pend_before[0]);
                        }
                    }
                    assert forall|m: int| 0 <= m < items@.len() implies entry_ok(
                        #[trigger] items@[m],
                        its@,
                        d,
                        fi,
                    ) by {
                        if m < items_before.len() {
                            assert(entry_ok(items_before[m], its_before, d, fi));
                            let s = items_before[m].source as int;
                            if s != i {
                                assert(its@[s] == its_before[s]);
                            } else {
                                assert forall|p: int|
                                    0 <= p < its@[s].pending_lines().len() implies lex_leq(
                                    items@[m].line.skey(),
                                    key_of(#[trigger] its@[s].pending_lines()[p], d, fi),
                                ) by {
                                    assert(its@[s].pending_lines()[p] == pend_before[p + 1]);
                                }
                            }
                        }
                    }
                    // fold the pulled line into the permutation account
                                    assert(items@.map_values(|e2: MergeItem| e2.line.sbytes()) =~= items_before.map_values(|e2: MergeItem| e2.line.sbytes()).push(l.sbytes()));
                    assert(items@.map_values(|e2: MergeItem| e2.line.sbytes()).to_multiset() =~= items_before.map_values(
                        |e2: MergeItem| e2.line.sbytes(),
                    ).to_multiset().insert(l.sbytes()));
                    assert(items@.map_values(|e2: MergeItem| e2.line.sbytes()).to_multiset().add(pendings(its@).to_multiset())
                        =~= total);
                    // the drawn-down stream is still sorted
                    assert forall|j: int| 0 <= j < k implies sorted_lines(
                        (#[trigger] its@[j]).pending_lines(),
                        d,
                        fi,
                    ) by {
                        if j == i as int {
                            assert forall|p: int, q: int|
                                0 <= p < q < its@[j].pending_lines().len() implies line_leq(
                                its@[j].pending_lines()[p],
                                its@[j].pending_lines()[q],
                                d,
                                fi,
                            ) by {
                                assert(its@[j].pending_lines()[p] == pend_before[p + 1]);
                                assert(its@[j].pending_lines()[q] == pend_before[q + 1]);
                            }
                        }
                    }
                    // each live source keeps a representative entry
                    assert forall|j: int|
                        0 <= j < i + 1 && (#[trigger] its@[j]).pending_lines().len()
                            > 0 implies exists|m: int|
                        0 <= m < items@.len() && items@[m].source == j by {
                        if j == i as int {
                            assert(items@[items@.len() - 1].source == j);
                        } else {
                            let mw = choose|mw: int|
                                0 <= mw < items_before.len() && items_before[mw].source == j;
                            assert(items@[mw].source == j);
                        }
                    }
                }
                i = i + 1;
            },
            Ok(None) => {
                proof {
                    assert(its@ =~= its_before.update(i as int, its@[i as int]));
                    assert(its@[i as int].pending_lines() == pend_before);
                    assert(its@[i as int].pending_lines().len() == 0);
                    assert(its@.map_values(|l: Lines<TmpFileReader>| l.pending_lines())
                        =~= its_before.map_values(|l: Lines<TmpFileReader>| l.pending_lines()));
                    assert(pendings(its@) =~= pendings(its_before));
                    assert forall|m: int| 0 <= m < items@.len() implies entry_ok(
                        #[trigger] items@[m],
                        its@,
                        d,
                        fi,
                    ) by {
                        assert(entry_ok(items@[m], its_before, d, fi));
                        let s = items@[m].source as int;
                        assert(its@[s].pending_lines() == its_before[s].pending_lines());
                    }
                    assert forall|j: int|
                        0 <= j < i + 1 && (#[trigger] its@[j]).pending_lines().len()
                            > 0 implies exists|m: int|
                        0 <= m < items@.len() && items@[m].source == j by {
                        assert(j != i as int);
                        let mw = choose|mw: int|
                            0 <= mw < items@.len() && items@[mw].source == j;
                        assert(items@[mw].source == j);
                    }
                }
                i = i + 1;
            },
            Err(e) => {
                proof {
                    // the blocking line is held by one of the given runs
                    let head = pend_before[0];
                    assert(head.len() >= bsz);
                    lemma_flatten_split(
                        its_before.map_values(|l: Lines<TmpFileReader>| l.pending_lines()),
                        i as int,
                    );
                    let off = its_before.map_values(
                        |l: Lines<TmpFileReader>| l.pending_lines(),
                    ).take(i as int).flatten().len() as int;
                    assert(pendings(its_before)[off] == head);
                    assert(pendings(its_before).to_multiset().count(head) > 0) by {
                        assert(pendings(its_before).contains(head));
                    }
                    assert(runs_lines(files0).to_multiset().count(head) > 0);
                    assert(runs_lines(files0).contains(head));
                    let jj = choose|jj: int|
                        0 <= jj < runs_lines(files0).len() && runs_lines(files0)[jj] == head;
                    assert(some_line_at_least(runs_lines(files0), bsz as int)) by {
                        assert(runs_lines(files0)[jj].len() >= bsz);
                    }
                }
                return Err(e);
            },
        }
    }
    merge_pulled(items, its, out, config, Ghost(files0), Ghost(bsz as int))
}

/// The merge loop proper: repeatedly pops the least-keyed entry, writes its
/// line, and refills the winner slot from the same source.
fn merge_pulled(
    items: Vec<MergeItem>,
    its: Vec<Lines<TmpFileReader>>,
    out: &mut Vec<u8>,
    config: &Configuration,
    Ghost(files0): Ghost<Seq<ClosedTmpFile>>,
    Ghost(bz): Ghost<int>,
) -> (r: Result<(), SortError>)
    requires
        its@.len() >= 1,
        its@.len() <= usize::MAX / 4,
        items@.len() <= its@.len(),
        forall|j: int|
            0 <= j < its@.len() ==> (#[trigger] its@[j]).wf() && its@[j].spec_config() == *config
                && its@[j].spec_buffer_size() as int == bz && sorted_lines(
                its@[j].pending_lines(),
                config.delimiter,
                config.field as nat,
            ),
        forall|m: int|
            0 <= m < items@.len() ==> entry_ok(
                #[trigger] items@[m],
                its@,
                config.delimiter,
                config.field as nat,
            ),
        forall|m: int|
            0 <= m < items@.len() ==> (#[trigger] items@[m]).line.sbytes().len() < bz,
        forall|j: int|
            0 <= j < its@.len() && (#[trigger] its@[j]).pending_lines().len() > 0 ==> exists|m: int|
                0 <= m < items@.len() && items@[m].source == j,
        items@.map_values(|e: MergeItem| e.line.sbytes()).to_multiset().add(
            pendings(its@).to_multiset(),
        ) == runs_lines(files0).to_multiset(),
    ensures
        match r {
            Ok(()) => ({
                let added = final(out)@.skip(old(out)@.len() as int);
                &&& final(out)@ == old(out)@ + added
                &&& added == unlines(lines_of(added))
                &&& lines_of(added).to_multiset() == runs_lines(files0).to_multiset()
                &&& sorted_lines(lines_of(added), config.delimiter, config.field as nat)
                &&& !some_line_at_least(runs_lines(files0), bz)
            }),
            Err(e) => {
                &&& final(out)@ == old(out)@
                &&& e == (SortError::LineTooLarge {
                    buffer_size: bz as usize,
                })
                &&& some_line_at_least(runs_lines(files0), bz)
            },
        },
{
    let ghost d = config.delimiter;
    let ghost fi = config.field as nat;
    let ghost total = runs_lines(files0).to_multiset();
    let k = its.len();
    let ghost items0 = items@;
    let mut its = its;
    let mut buf: Vec<u8> = Vec::new();
    let ghost mut done: Seq<Seq<u8>> = Seq::empty();
    let ghost mut hseq: Seq<MergeItem> = items0;
    if items.len() == 0 {
        proof {
            let pm = its@.map_values(|l: Lines<TmpFileReader>| l.pending_lines());
            assert forall|j: int| 0 <= j < pm.len() implies (#[trigger] pm[j]).len() == 0 by {
                assert(pm[j] == its@[j].pending_lines());
                if its@[j].pending_lines().len() > 0 {
                    let m = choose|m: int| 0 <= m < items0.len() && items0[m].source == j;
                    assert(false);
                }
            }
            lemma_flatten_empty(pm);
            assert(pendings(its@).to_multiset().len() == 0);
            assert(items0.map_values(|e2: MergeItem| e2.line.sbytes()).to_multiset().len() == 0);
            assert(total.len() == 0);
            assert(runs_lines(files0).len() == 0);
            assert(!some_line_at_least(runs_lines(files0), bz));
            assert(final(out)@ == old(out)@ + final(out)@.skip(old(out)@.len() as int)) by {
                assert(final(out)@.skip(old(out)@.len() as int) =~= Seq::<u8>::empty());
                assert(final(out)@ =~= old(out)@ + Seq::<u8>::empty());
            }
            assert(lines_of(Seq::<u8>::empty()) == Seq::<Seq<u8>>::empty());
            assert(unlines(Seq::<Seq<u8>>::empty()) == Seq::<u8>::empty());
            assert(lines_of(Seq::<u8>::empty()).to_multiset() =~= total);
        }
        return Ok(());
    }
    let mut heap = WinnerHeap::new(items);
    proof {
        assert(heap.internal_size > 0);
        assert(hseq.to_multiset() == heap.live());
        assert(unlines(done) =~= Seq::<u8>::empty());
    }
    loop
        invariant
            out@ == old(out)@,
            heap.wf(),
            heap.internal_size > 0,
            hseq.to_multiset() == heap.live(),
            its@.len() == k,
            1 <= k,
            d == config.delimiter,
            fi == config.field as nat,
            total == runs_lines(files0).to_multiset(),
            forall|j: int|
                0 <= j < k ==> (#[trigger] its@[j]).wf() && its@[j].spec_config() == *config
                    && its@[j].spec_buffer_size() as int == bz && sorted_lines(
                    its@[j].pending_lines(),
                    d,
                    fi,
                ),
            forall|m: int| 0 <= m < hseq.len() ==> entry_ok(#[trigger] hseq[m], its@, d, fi),
            forall|m: int|
                0 <= m < hseq.len() ==> (#[trigger] hseq[m]).line.sbytes().len() < bz,
            forall|j: int|
                0 <= j < k && (#[trigger] its@[j]).pending_lines().len() > 0 ==> exists|m: int|
                    0 <= m < hseq.len() && hseq[m].source == j,
            sorted_lines(done, d, fi),
            forall|q: int| 0 <= q < done.len() ==> no_newline(#[trigger] done[q]),
            forall|q: int| 0 <= q < done.len() ==> (#[trigger] done[q]).len() < bz,
            forall|q: int, m: int|
                0 <= q < done.len() && 0 <= m < hseq.len() ==> lex_leq(
                    key_of(#[trigger] done[q], d, fi),
                    (#[trigger] hseq[m]).line.skey(),
                ),
            buf@ == unlines(done),
            done.to_multiset().add(hseq.map_values(|e2: MergeItem| e2.line.sbytes()).to_multiset()).add(
                pendings(its@).to_multiset(),
            ) == total,
        decreases hseq.len() + pendings(its@).len(),
    {
        let popped = heap.pop();
        match popped {
            None => {
                proof {
                    assert(heap.live().len() == 0);
                    assert(hseq.len() == 0);
                    let pm = its@.map_values(|l: Lines<TmpFileReader>| l.pending_lines());
                    assert forall|j: int| 0 <= j < pm.len() implies (#[trigger] pm[j]).len()
                        == 0 by {
                        assert(pm[j] == its@[j].pending_lines());
                        if its@[j].pending_lines().len() > 0 {
                            let m = choose|m: int| 0 <= m < hseq.len() && hseq[m].source == j;
                            assert(false);
                        }
                    }
                    lemma_flatten_empty(pm);
                    assert(hseq.map_values(|e2: MergeItem| e2.line.sbytes()).to_multiset().len() == 0);
                    assert(pendings(its@).to_multiset().len() == 0);
                    assert(done.to_multiset() =~= total);
                    assert(!some_line_at_least(runs_lines(files0), bz)) by {
                        if some_line_at_least(runs_lines(files0), bz) {
                            let i = choose|i: int|
                                0 <= i < runs_lines(files0).len() && (#[trigger] runs_lines(
                                    files0,
                                )[i]).len() >= bz;
                            let x = runs_lines(files0)[i];
                            assert(runs_lines(files0).contains(x));
                            assert(total.count(x) > 0);
                            assert(done.to_multiset().count(x) > 0);
                            crate::model::lemma_to_multiset_contains(
                                runs_lines(files0),
                                done,
                                x,
                            );
                            let q = choose|q: int| 0 <= q < done.len() && done[q] == x;
                            assert(done[q].len() < bz);
                            assert(false);
                        }
                    }
                }
                out.append(&mut buf);
                proof {
                    lemma_round_trip(done);
                    assert(final(out)@.skip(old(out)@.len() as int) =~= unlines(done));
                    assert(final(out)@ == old(out)@ + final(out)@.skip(old(out)@.len() as int))
                        by {
                        assert(final(out)@ =~= old(out)@ + unlines(done));
                    }
                }
                return Ok(());
            },
            Some(entry) => {
                let ghost hseq0 = hseq;
                let ghost its_before = its@;
                proof {
                    // locate the popped entry among the live ones
                    assert(hseq0.to_multiset().count(entry) > 0);
                    assert(hseq0.contains(entry));
                    let m0 = choose|m0: int| 0 <= m0 < hseq0.len() && hseq0[m0] == entry;
                    assert(entry_ok(entry, its@, d, fi));
                    hseq = hseq0.remove(m0);
                    assert(hseq.to_multiset() == hseq0.to_multiset().remove(entry));
                    use_type_invariant(&entry.line);
                    entry.line.lemma_wf_facts();
                }
                let ghost done0 = done;
                entry.line.write(&mut buf);
                proof {
                    done = done0.push(entry.line.sbytes());
                    crate::model::lemma_unlines_push(done0, entry.line.sbytes());
                    // every remaining live entry keys at or above the popped one
                    assert forall|m: int| 0 <= m < hseq.len() implies lex_leq(
                        entry.line.skey(),
                        (#[trigger] hseq[m]).line.skey(),
                    ) by {
                        assert(hseq.to_multiset().count(hseq[m]) > 0);
                        assert(heap.live().count(hseq[m]) > 0);
                        assert(hseq[m].le_spec(entry));
                    }
                    // the written line is keyed, so order carries to the bytes
                    assert(key_of(entry.line.sbytes(), d, fi) == entry.line.skey());
                    assert forall|q: int, m: int|
                        0 <= q < done.len() && 0 <= m < hseq.len() implies lex_leq(
                        key_of(#[trigger] done[q], d, fi),
                        (#[trigger] hseq[m]).line.skey(),
                    ) by {
                        if q < done0.len() {
                            assert(hseq.to_multiset().count(hseq[m]) > 0);
                            assert(hseq0.to_multiset().count(hseq[m]) > 0);
                            assert(hseq0.contains(hseq[m]));
                            let mm = choose|mm: int|
                                0 <= mm < hseq0.len() && hseq0[mm] == hseq[m];
                            assert(lex_leq(key_of(done0[q], d, fi), hseq0[mm].line.skey()));
                        } else {
                            assert(done[q] == entry.line.sbytes());
                        }
                    }
                    assert forall|q: int, p: int|
                        0 <= q < p < done.len() implies line_leq(done[q], done[p], d, fi) by {
                        if p < done0.len() {
                        } else {
                            if q < done0.len() {
                                let m0b = choose|m0b: int|
                                    0 <= m0b < hseq0.len() && hseq0[m0b] == entry;
                                assert(lex_leq(key_of(done0[q], d, fi), hseq0[m0b].line.skey()));
                            } else {
                                crate::model::lemma_lex_refl(entry.line.skey());
                            }
                        }
                    }
                    assert forall|m: int| 0 <= m < hseq.len() implies entry_ok(
                        #[trigger] hseq[m],
                        its@,
                        d,
                        fi,
                    ) by {
                        let m0c = choose|m0c: int| 0 <= m0c < hseq0.len() && hseq0[m0c] == entry;
                        if m < m0c {
                            assert(hseq[m] == hseq0[m]);
                        } else {
                            assert(hseq[m] == hseq0[m + 1]);
                        }
                    }
                }
                // refill from the same source
                let src = entry.source;
                proof {
                    assert(src < k);
                }
                let ghost pend_before = its@[src as int].pending_lines();
                let nxt = its[src].next();
                match nxt {
                    Ok(Some(l2)) => {
                        let fresh = MergeItem { line: l2, source: src };
                        proof {
                            assert(its@ =~= its_before.update(src as int, its@[src as int]));
                            lemma_pendings_pull(its_before, its@, src as int);
                        }
                        heap.push(fresh);
                        proof {
                            let ghost hseq1 = hseq;
                            hseq = hseq1.push(fresh);
                            assert(hseq.to_multiset() =~= hseq1.to_multiset().insert(fresh));
                            // the fresh entry sits at or above the line just written
                            assert(l2.sbytes() == pend_before[0]);
                            assert(lex_leq(entry.line.skey(), key_of(pend_before[0], d, fi)));
                            assert(key_of(l2.sbytes(), d, fi) == l2.skey());
                            assert(lex_leq(entry.line.skey(), l2.skey()));
                            assert forall|m: int| 0 <= m < hseq.len() implies entry_ok(
                                #[trigger] hseq[m],
                                its@,
                                d,
                                fi,
                            ) by {
                                if m < hseq1.len() {
                                    assert(entry_ok(hseq1[m], its_before, d, fi));
                                    let s = hseq1[m].source as int;
                                    if s != src {
                                        assert(its@[s] == its_before[s]);
                                    } else {
                                        assert forall|p: int|
                                            0 <= p < its@[s].pending_lines().len() implies
                                            lex_leq(
                                            hseq[m].line.skey(),
                                            key_of(
                                                #[trigger] its@[s].pending_lines()[p],
                                                d,
                                                fi,
                                            ),
                                        ) by {
                                            assert(its@[s].pending_lines()[p] == pend_before[p
                                                + 1]);
                                        }
                                    }
                                } else {
                                    assert(hseq[m] == fresh);
                                    assert forall|p: int|
                                        0 <= p < its@[src as int].pending_lines().len() implies
                                        lex_leq(
                                        fresh.line.skey(),
                                        key_of(
                                            #[trigger] its@[src as int].pending_lines()[p],
                                            d,
                                            fi,
                                        ),
                                    ) by {
                                        assert(its@[src as int].pending_lines()[p]
                                            == pend_before[p + 1]);
                                        assert(line_leq(
                                            pend_before[0],
                                            pend_before[p + 1],
                                            d,
                                            fi,
                                        ));
                                    }
                                }
                            }
                            // the refilled entry's line also fits the read buffer
                            assert(fresh.line.sbytes().len() < bz);
                            assert forall|m: int|
                                0 <= m < hseq.len() implies (#[trigger] hseq[m]).line.sbytes().len()
                                < bz by {
                                if m < hseq1.len() {
                                    let m0x = choose|m0x: int|
                                        0 <= m0x < hseq0.len() && hseq0[m0x] == entry;
                                    if m < m0x {
                                        assert(hseq1[m] == hseq0[m]);
                                    } else {
                                        assert(hseq1[m] == hseq0[m + 1]);
                                    }
                                }
                            }
                            // done stays below the refilled entry
                            assert forall|q: int, m: int|
                                0 <= q < done.len() && 0 <= m < hseq.len() implies lex_leq(
                                key_of(#[trigger] done[q], d, fi),
                                (#[trigger] hseq[m]).line.skey(),
                            ) by {
                                if m < hseq1.len() {
                                } else {
                                    assert(hseq[m] == fresh);
                                    assert(lex_leq(key_of(done[q], d, fi), entry.line.skey()))
                                        by {
                                        if q < done0.len() {
                                            let mz = choose|mz: int|
                                                0 <= mz < hseq0.len() && hseq0[mz] == entry;
                                            assert(lex_leq(
                                                key_of(done0[q], d, fi),
                                                hseq0[mz].line.skey(),
                                            ));
                                        } else {
                                            crate::model::lemma_lex_refl(entry.line.skey());
                                        }
                                    }
                                    lemma_lex_trans(
                                        key_of(done[q], d, fi),
                                        entry.line.skey(),
                                        fresh.line.skey(),
                                    );
                                }
                            }
                            // the drawn-down stream is still sorted
                            assert forall|j: int| 0 <= j < k implies sorted_lines(
                                (#[trigger] its@[j]).pending_lines(),
                                d,
                                fi,
                            ) by {
                                if j == src as int {
                                    assert forall|p: int, q: int|
                                        0 <= p < q < its@[j].pending_lines().len() implies
                                        line_leq(
                                        its@[j].pending_lines()[p],
                                        its@[j].pending_lines()[q],
                                        d,
                                        fi,
                                    ) by {
                                        assert(its@[j].pending_lines()[p] == pend_before[p + 1]);
                                        assert(its@[j].pending_lines()[q] == pend_before[q + 1]);
                                    }
                                }
                            }
                            // coverage: the refilled source is live again
                            assert forall|j: int|
                                0 <= j < k && (#[trigger] its@[j]).pending_lines().len()
                                    > 0 implies exists|m: int|
                                0 <= m < hseq.len() && hseq[m].source == j by {
                                if j == src as int {
                                    assert(hseq[hseq.len() - 1].source == j);
                                } else {
                                    assert(its_before[j].pending_lines().len() > 0);
                                    let mw = choose|mw: int|
                                        0 <= mw < hseq0.len() && hseq0[mw].source == j;
                                    let m0d = choose|m0d: int|
                                        0 <= m0d < hseq0.len() && hseq0[m0d] == entry;
                                    if mw < m0d {
                                        assert(hseq[mw].source == j);
                                    } else if mw > m0d {
                                        assert(hseq[mw - 1].source == j);
                                    } else {
                                        assert(hseq0[mw] == entry);
                                        assert(false);
                                    }
                                }
                            }
                            // the permutation account
                            let gmap = |e2: MergeItem| e2.line.sbytes();
                            let eb = entry.line.sbytes();
                            let m0e = choose|m0e: int|
                                0 <= m0e < hseq0.len() && hseq0[m0e] == entry;
                            assert(done.to_multiset() =~= done0.to_multiset().insert(eb));
                            assert(hseq1.map_values(gmap) =~= hseq0.map_values(gmap).remove(
                                m0e,
                            ));
                            assert(hseq0.map_values(gmap)[m0e] == eb);
                            assert(hseq1.map_values(gmap).to_multiset() == hseq0.map_values(
                                gmap,
                            ).to_multiset().remove(eb));
                            assert(hseq.map_values(gmap) =~= hseq1.map_values(gmap).push(
                                l2.sbytes(),
                            ));
                            assert(hseq.map_values(gmap).to_multiset() == hseq1.map_values(
                                gmap,
                            ).to_multiset().insert(l2.sbytes()));
                            assert(hseq0.map_values(gmap).to_multiset().count(eb) > 0) by {
                                assert(hseq0.map_values(gmap)[m0e] == eb);
                                assert(hseq0.map_values(gmap).contains(eb));
                            }
                            assert(pendings(its_before).to_multiset() == pendings(
                                its@,
                            ).to_multiset().insert(l2.sbytes()));
                            assert(done.to_multiset().add(
                                hseq.map_values(gmap).to_multiset(),
                            ).add(pendings(its@).to_multiset()) =~= total);
                        }
                    },
                    Ok(None) => {
                        proof {
                            assert(its@ =~= its_before.update(src as int, its@[src as int]));
                            assert(its@[src as int].pending_lines() == pend_before);
                            assert(its@.map_values(|l: Lines<TmpFileReader>| l.pending_lines())
                                =~= its_before.map_values(
                                |l: Lines<TmpFileReader>| l.pending_lines(),
                            ));
                            assert(pendings(its@) =~= pendings(its_before));
                            assert forall|m: int| 0 <= m < hseq.len() implies entry_ok(
                                #[trigger] hseq[m],
                                its@,
                                d,
                                fi,
                            ) by {
                                assert(entry_ok(hseq[m], its_before, d, fi));
                                let s = hseq[m].source as int;
                                assert(its@[s].pending_lines()
                                    == its_before[s].pending_lines());
                            }
                            assert forall|j: int|
                                0 <= j < k && (#[trigger] its@[j]).pending_lines().len()
                                    > 0 implies exists|m: int|
                                0 <= m < hseq.len() && hseq[m].source == j by {
                                assert(j != src as int);
                                let mw = choose|mw: int|
                                    0 <= mw < hseq0.len() && hseq0[mw].source == j;
                                let m0d = choose|m0d: int|
                                    0 <= m0d < hseq0.len() && hseq0[m0d] == entry;
                                if mw < m0d {
                                    assert(hseq[mw].source == j);
                                } else if mw > m0d {
                                    assert(hseq[mw - 1].source == j);
                                } else {
                                    assert(false);
                                }
                            }
                            // the permutation account
                            let gmap = |e2: MergeItem| e2.line.sbytes();
                            let eb = entry.line.sbytes();
                            let m0e = choose|m0e: int|
                                0 <= m0e < hseq0.len() && hseq0[m0e] == entry;
                            assert(done.to_multiset() =~= done0.to_multiset().insert(eb));
                            assert(hseq.map_values(gmap) =~= hseq0.map_values(gmap).remove(
                                m0e,
                            ));
                            assert(hseq0.map_values(gmap)[m0e] == eb);
                            assert(hseq.map_values(gmap).to_multiset() == hseq0.map_values(
                                gmap,
                            ).to_multiset().remove(eb));
                            assert(hseq0.map_values(gmap).to_multiset().count(eb) > 0) by {
                                assert(hseq0.map_values(gmap)[m0e] == eb);
                                assert(hseq0.map_values(gmap).contains(eb));
                            }
                            assert(done.to_multiset().add(
                                hseq.map_values(gmap).to_multiset(),
                            ).add(pendings(its@).to_multiset()) =~= total);
                        }
                    },
                    Err(e) => {
                        proof {
                            let head = pend_before[0];
                            assert(head.len() >= bz);
                            lemma_flatten_split(
                                its_before.map_values(
                                    |l: Lines<TmpFileReader>| l.pending_lines(),
                                ),
                                src as int,
                            );
                            let off = its_before.map_values(
                                |l: Lines<TmpFileReader>| l.pending_lines(),
                            ).take(src as int).flatten().len() as int;
                            assert(pendings(its_before)[off] == head);
                            assert(pendings(its_before).to_multiset().count(head) > 0) by {
                                assert(pendings(its_before).contains(head));
                            }
                            assert(runs_lines(files0).to_multiset().count(head) > 0);
                            assert(runs_lines(files0).contains(head));
                            let jj = choose|jj: int|
                                0 <= jj < runs_lines(files0).len() && runs_lines(files0)[jj]
                                    == head;
                            assert(some_line_at_least(runs_lines(files0), bz)) by {
                                assert(runs_lines(files0)[jj].len() >= bz);
                            }
                        }
                        return Err(e);
                    },
                }
            },
        }
    }
}


/// Splitting a run set splits its lines.
proof fn lemma_runs_lines_concat(a: Seq<ClosedTmpFile>, b: Seq<ClosedTmpFile>)
    ensures
        runs_lines(a + b) == runs_lines(a) + runs_lines(b),
{
    let f = |x: ClosedTmpFile| lines_of(x.spec_contents());
    assert((a + b).map_values(f) =~= a.map_values(f) + b.map_values(f));
    vstd::seq_lib::lemma_flatten_concat(a.map_values(f), b.map_values(f));
}

/// The lines of a single run.
proof fn lemma_runs_lines_one(x: ClosedTmpFile)
    ensures
        runs_lines(seq![x]) == lines_of(x.spec_contents()),
{
    broadcast use Seq::lemma_flatten_singleton;

    let f = |y: ClosedTmpFile| lines_of(y.spec_contents());
    assert(seq![x].map_values(f) =~= seq![lines_of(x.spec_contents())]);
}

/// Reversing the run order permutes the lines.
proof fn lemma_runs_lines_reverse(s: Seq<ClosedTmpFile>)
    ensures
        runs_lines(s.reverse()).to_multiset() == runs_lines(s).to_multiset(),
    decreases s.len(),
{
    if s.len() == 0 {
        assert(s.reverse() =~= s);
    } else {
        let x = s[0];
        let rest = s.drop_first();
        assert(s.reverse() =~= rest.reverse() + seq![x]);
        assert(s =~= seq![x] + rest);
        lemma_runs_lines_concat(rest.reverse(), seq![x]);
        lemma_runs_lines_concat(seq![x], rest);
        lemma_runs_lines_one(x);
        lemma_runs_lines_reverse(rest);
        vstd::seq_lib::lemma_multiset_commutative(runs_lines(rest.reverse()), runs_lines(seq![x]));
        vstd::seq_lib::lemma_multiset_commutative(runs_lines(seq![x]), runs_lines(rest));
        assert(runs_lines(s.reverse()).to_multiset() =~= runs_lines(s).to_multiset());
    }
}


/// The fan-in one merge pass uses over `n_files` runs: the configured
/// fan-in, lowered towards the share of one worker so the batches spread
/// over the workers, but never below two.
pub open spec fn merge_fan_in(c: Configuration, n_files: int) -> int {
    let per_worker = if n_files == 0 {
        0int
    } else {
        (n_files - 1) / (c.threads as int) + 1
    };
    let capped = if c.chunk_size as int <= per_worker {
        c.chunk_size as int
    } else {
        per_worker
    };
    if capped >= 2 {
        capped
    } else {
        2int
    }
}

/// Fewer runs per merge leave each a larger read budget.
pub proof fn lemma_merge_read_buffer_antitone(c: Configuration, k1: int, k2: int)
    requires
        1 <= k1 <= k2,
    ensures
        merge_read_buffer(c, k1) >= merge_read_buffer(c, k2),
{
    vstd::arithmetic::div_mod::lemma_div_is_ordered_by_denominator(
        c.buffer_size as int,
        k1,
        k2,
    );
}

/// Groups closed runs into fan-in batches and merges each batch into a
/// fresh run; the result holds the same lines in fewer runs.
pub fn merge(files: Vec<ClosedTmpFile>, tmp_dir: &mut TmpDir, config: &Configuration) -> (r:
    Result<Vec<ClosedTmpFile>, SortError>)
    requires
        config.threads >= 1,
        2 <= config.chunk_size <= usize::MAX / 4,
        config.buffer_size >= config.chunk_size,
        forall|i: int|
            0 <= i < files@.len() ==> run_sorted(
                #[trigger] files@[i],
                config.delimiter,
                config.field as nat,
            ),
    ensures
        final(tmp_dir).spec_created() >= old(tmp_dir).spec_created(),
        match r {
            Ok(out) => {
                &&& runs_lines(out@).to_multiset() == runs_lines(files@).to_multiset()
                &&& forall|i: int|
                    0 <= i < out@.len() ==> run_sorted(
                        #[trigger] out@[i],
                        config.delimiter,
                        config.field as nat,
                    )
                &&& files@.len() >= 2 ==> out@.len() < files@.len()
                &&& files@.len() >= 1 ==> out@.len() >= 1
                &&& files@.len() == 0 ==> out@.len() == 0
                &&& files@.len() >= 1 ==> ((out@.len() - 1) * merge_fan_in(
                    *config,
                    files@.len() as int,
                ) + 1 <= files@.len() <= out@.len() * merge_fan_in(*config, files@.len() as int))
            },
            Err(e) => {
                &&& e is LineTooLarge
                &&& some_line_at_least(
                    runs_lines(files@),
                    merge_read_buffer(*config, config.chunk_size as int),
                )
            },
        },
{
    let ghost d = config.delimiter;
    let ghost fi = config.field as nat;
    let ghost files_v = files@;
    // spread the merging work across smaller batches when few runs are left
    let per_worker = if files.len() == 0 {
        0
    } else {
        (files.len() - 1) / config.threads + 1
    };
    let capped = if config.chunk_size <= per_worker {
        config.chunk_size
    } else {
        per_worker
    };
    let chunk_size = if capped >= 2 {
        capped
    } else {
        2
    };
    proof {
        assert(2 <= chunk_size <= config.chunk_size);
        assert(chunk_size as int == merge_fan_in(*config, files_v.len() as int));
    }
    let file_batches = into_chunks(files, chunk_size);
    let ghost batches_v = file_batches@.map_values(|c: Vec<ClosedTmpFile>| c@);
    proof {
        lemma_runs_lines_reverse(files_v);
        assert(batches_v.flatten() == files_v.reverse());
    }
    let mut tmp_files: Vec<ClosedTmpFile> = Vec::new();
    let mut file_batches = file_batches;
    let ghost total = runs_lines(files_v).to_multiset();
    let mut gi: usize = 0;
    let n_batches = file_batches.len();
    proof {
        assert(batches_v.skip(0) =~= batches_v);
        assert(runs_lines(tmp_files@) =~= Seq::<Seq<u8>>::empty());
        // the batches together hold every line
        assert(runs_lines(batches_v.flatten()).to_multiset() == total);
        // every batched run is one of the given runs
        assert forall|g: int, i: int|
            0 <= g < batches_v.len() && 0 <= i < batches_v[g].len() implies run_sorted(
            #[trigger] batches_v[g][i],
            d,
            fi,
        ) by {
            lemma_flatten_split(batches_v, g);
            let x = batches_v[g][i];
            let pos = batches_v.take(g).flatten().len() + i;
            assert(batches_v.flatten()[pos] == x);
            assert(files_v.reverse()[pos] == x);
            assert(files_v[files_v.len() - 1 - pos] == x);
        }
    }
    while gi < n_batches
        invariant
            gi <= n_batches,
            n_batches == file_batches@.len(),
            n_batches == batches_v.len(),
            n_batches <= files_v.len(),
            files_v == files@,
            chunk_size as int == merge_fan_in(*config, files_v.len() as int),
            n_batches >= 1 ==> (n_batches - 1) * chunk_size + 1 <= files_v.len(),
            n_batches * chunk_size >= files_v.len(),
            files_v.len() == 0 ==> n_batches == 0,
            files_v.len() >= 1 ==> n_batches >= 1,
            2 <= chunk_size,
            config.buffer_size >= config.chunk_size >= chunk_size,
            chunk_size <= usize::MAX / 4,
            d == config.delimiter,
            fi == config.field as nat,
            total == runs_lines(files_v).to_multiset(),
            tmp_dir.spec_created() >= old(tmp_dir).spec_created(),
            forall|g: int|
                gi <= g < n_batches ==> (#[trigger] file_batches@[g])@ == batches_v[g],
            forall|g: int|
                0 <= g < n_batches ==> 1 <= (#[trigger] batches_v[g]).len() <= chunk_size,
            forall|g: int, i: int|
                0 <= g < n_batches && 0 <= i < batches_v[g].len() ==> run_sorted(
                    #[trigger] batches_v[g][i],
                    d,
                    fi,
                ),
            forall|i: int|
                0 <= i < tmp_files@.len() ==> run_sorted(#[trigger] tmp_files@[i], d, fi),
            runs_lines(tmp_files@).to_multiset().add(
                runs_lines(batches_v.skip(gi as int).flatten()).to_multiset(),
            ) == total,
            tmp_files@.len() == gi,
        decreases n_batches - gi,
    {
        let ghost batch_v = batches_v[gi as int];
        let mut first: Vec<ClosedTmpFile> = Vec::new();
        std::mem::swap(&mut first, vstd::std_specs::vec::vec_index_mut(&mut file_batches, gi));
        proof {
            assert(first@ == batch_v);
            assert(file_batches@[gi as int]@ =~= Seq::<ClosedTmpFile>::empty());
        }
        let mut tmp_file = tmp_dir.create_new_file();
        let mut buf: Vec<u8> = Vec::new();
        let res = merge_and_write(first, &mut buf, config);
        match res {
            Ok(()) => {
                let ghost bs = lines_of(buf@);
                proof {
                    assert(buf@.skip(0) =~= buf@);
                    assert(buf@ == unlines(bs));
                    assert(bs.to_multiset() == runs_lines(batch_v).to_multiset());
                    assert(sorted_lines(bs, d, fi));
                }
                tmp_file.write_all_bytes(buf.as_slice());
                let closed = tmp_file.close();
                let ghost out0 = tmp_files@;
                tmp_files.push(closed);
                proof {
                    assert(closed.spec_contents() =~= unlines(bs));
                    crate::model::lemma_lines_of_no_newline(buf@);
                    lemma_round_trip(bs);
                    assert(lines_of(closed.spec_contents()) == bs);
                    assert(run_sorted(closed, d, fi));
                    // fold this batch into the account
                    let f = |x: ClosedTmpFile| lines_of(x.spec_contents());
                    assert(tmp_files@.map_values(f).drop_last() =~= out0.map_values(f));
                    assert(tmp_files@.map_values(f).last() == bs);
                    tmp_files@.map_values(f).lemma_flatten_and_flatten_alt_are_equivalent();
                    out0.map_values(f).lemma_flatten_and_flatten_alt_are_equivalent();
                    assert(tmp_files@.map_values(f).flatten_alt() == tmp_files@.map_values(
                        f,
                    ).drop_last().flatten_alt().add(bs));
                    assert(runs_lines(tmp_files@) == runs_lines(out0) + bs);
                    vstd::seq_lib::lemma_multiset_commutative(runs_lines(out0), bs);
                    assert(batches_v.skip(gi as int) =~= seq![batch_v] + batches_v.skip(
                        gi + 1,
                    ));
                    vstd::seq_lib::lemma_flatten_concat(
                        seq![batch_v],
                        batches_v.skip(gi + 1),
                    );
                    assert(seq![batch_v].flatten() =~= batch_v) by {
                        broadcast use Seq::lemma_flatten_singleton;

                    }
                    lemma_runs_lines_concat(batch_v, batches_v.skip(gi + 1).flatten());
                    vstd::seq_lib::lemma_multiset_commutative(
                        runs_lines(batch_v),
                        runs_lines(batches_v.skip(gi + 1).flatten()),
                    );
                    assert(runs_lines(tmp_files@).to_multiset().add(
                        runs_lines(batches_v.skip(gi + 1).flatten()).to_multiset(),
                    ) =~= total);
                }
                gi = gi + 1;
            },
            Err(e) => {
                proof {
                    // the blocking line of this batch is one of the given lines
                    let mrb_b = merge_read_buffer(*config, batch_v.len() as int);
                    let mrb_cs = merge_read_buffer(*config, config.chunk_size as int);
                    lemma_merge_read_buffer_antitone(
                        *config,
                        batch_v.len() as int,
                        config.chunk_size as int,
                    );
                    let li = choose|li: int|
                        0 <= li < runs_lines(batch_v).len() && (#[trigger] runs_lines(
                            batch_v,
                        )[li]).len() >= mrb_b;
                    let x = runs_lines(batch_v)[li];
                    assert(batches_v.skip(gi as int) =~= seq![batch_v] + batches_v.skip(
                        gi + 1,
                    ));
                    vstd::seq_lib::lemma_flatten_concat(seq![batch_v], batches_v.skip(gi + 1));
                    assert(seq![batch_v].flatten() =~= batch_v) by {
                        broadcast use Seq::lemma_flatten_singleton;

                    }
                    lemma_runs_lines_concat(batch_v, batches_v.skip(gi + 1).flatten());
                    vstd::seq_lib::lemma_multiset_commutative(
                        runs_lines(batch_v),
                        runs_lines(batches_v.skip(gi + 1).flatten()),
                    );
                    assert(runs_lines(batch_v).to_multiset().count(x) > 0) by {
                        assert(runs_lines(batch_v).contains(x));
                    }
                    assert(total.count(x) > 0);
                    assert(runs_lines(files_v).contains(x));
                    let jj = choose|jj: int|
                        0 <= jj < runs_lines(files_v).len() && runs_lines(files_v)[jj] == x;
                    assert(some_line_at_least(runs_lines(files_v), mrb_cs)) by {
                        assert(runs_lines(files_v)[jj].len() >= mrb_cs);
                    }
                }
                return Err(e);
            },
        }
    }
    proof {
        assert(batches_v.skip(n_batches as int) =~= Seq::<Seq<ClosedTmpFile>>::empty());
        assert(runs_lines(Seq::<ClosedTmpFile>::empty()) =~= Seq::<Seq<u8>>::empty());
        assert(Seq::<Seq<ClosedTmpFile>>::empty().flatten() =~= Seq::<ClosedTmpFile>::empty());
        assert(runs_lines(tmp_files@).to_multiset() =~= total);
        if files_v.len() >= 2 {
            assert(tmp_files@.len() < files_v.len());
        }
    }
    Ok(tmp_files)
}


} // verus!

