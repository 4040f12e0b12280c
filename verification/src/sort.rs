//! The sort stage: drains the chunk stream, sorting each chunk and spilling
//! it to a fresh run.

use vstd::prelude::*;

use crate::chunk::{Chunk, Chunks};
use crate::config::Configuration;
use crate::error::SortError;
use crate::line::Line;
use crate::model::{
    no_newline, lines_of, unlines, sorted_lines, has_long_line, some_line_at_least,
    lemma_to_multiset_map, lemma_round_trip, lemma_head_line_blocks,
    lemma_some_line_at_least_multiset, lemma_to_multiset_contains,
};
use crate::source::ByteSource;
use crate::tempfile::{ClosedTmpFile, TmpDir, TmpFileWriter, TmpFileOpened, TmpFileWrite, TmpFileClosed};

verus! {

broadcast use vstd::seq_lib::group_to_multiset_ensures;

/// The byte strings of all lines of all runs, in order.
pub open spec fn runs_lines(files: Seq<ClosedTmpFile>) -> Seq<Seq<u8>> {
    files.map_values(|f: ClosedTmpFile| lines_of(f.spec_contents())).flatten()
}

/// A proper run: its lines are sorted under the configuration and its bytes
/// are exactly those lines, each followed by one newline.  A proper run may
/// be empty; the merge excludes such a source and proceeds.
pub open spec fn run_sorted(f: ClosedTmpFile, d: u8, fi: nat) -> bool {
    &&& sorted_lines(lines_of(f.spec_contents()), d, fi)
    &&& f.spec_contents() == unlines(lines_of(f.spec_contents()))
}

/// A run as the sort stage spills it: proper, and holding at least one line.
pub open spec fn run_ok(f: ClosedTmpFile, d: u8, fi: nat) -> bool {
    &&& run_sorted(f, d, fi)
    &&& lines_of(f.spec_contents()).len() >= 1
}

/// Sorts one chunk and appends its lines, each followed by one newline, to
/// the run being written.
pub fn sort_and_write(chunk: Chunk, file: &mut TmpFileWriter)
    ensures
        ({
            let bs = lines_of(final(file).contents()).skip(
                lines_of(old(file).contents()).len() as int,
            );
            old(file).contents() == unlines(lines_of(old(file).contents()))
                ==> {
                &&& final(file).contents() == old(file).contents() + unlines(bs)
                &&& lines_of(final(file).contents()) == lines_of(old(file).contents()) + bs
                &&& bs.to_multiset() == chunk.bytes_seq().to_multiset()
                &&& bs.len() == chunk.all_lines().len()
                &&& forall|j: int| 0 <= j < bs.len() ==> no_newline(#[trigger] bs[j])
                &&& forall|d: u8, fi: nat|
                    chunk.keyed_by(d, fi) ==> sorted_lines(bs, d, fi)
            }
        }),
{
    let ghost chunk0 = chunk;
    let mut sc = chunk;
    sc.sort_unstable();
    proof {
        use_type_invariant(&sc);
    }
    let mut buf: Vec<u8> = Vec::new();
    sc.write(&mut buf);
    file.write_all_bytes(buf.as_slice());
    proof {
        let sorted_bytes = sc.bytes_seq();
        assert forall|j: int|
            0 <= j < sorted_bytes.len() implies no_newline(#[trigger] sorted_bytes[j]) by {
            assert(sc.all_lines()[j].wf());
            sc.all_lines()[j].lemma_wf_facts();
            assert(sorted_bytes[j] == sc.all_lines()[j].sbytes());
        }
        // the new tail of the run parses back to exactly the sorted lines
        if old(file).contents() == unlines(lines_of(old(file).contents())) {
            let pre = lines_of(old(file).contents());
            crate::model::lemma_lines_of_no_newline(old(file).contents());
            crate::model::lemma_lines_of_unlines(pre, unlines(sorted_bytes));
            crate::model::lemma_lines_of_unlines(sorted_bytes, Seq::<u8>::empty());
            assert(unlines(sorted_bytes) + Seq::<u8>::empty() =~= unlines(sorted_bytes));
            assert(final(file).contents() =~= unlines(pre) + unlines(sorted_bytes));
            assert(lines_of(final(file).contents()) == pre + sorted_bytes);
            assert(lines_of(final(file).contents()).skip(pre.len() as int) =~= sorted_bytes);
            assert(sorted_bytes.to_multiset() == chunk0.bytes_seq().to_multiset());
            // keys travel with the lines through the sort
            assert forall|d: u8, fi: nat| chunk0.keyed_by(d, fi) implies sorted_lines(
                sorted_bytes,
                d,
                fi,
            ) by {
                assert forall|i: int, j: int|
                    0 <= i < j < sorted_bytes.len() implies crate::model::line_leq(
                    sorted_bytes[i],
                    sorted_bytes[j],
                    d,
                    fi,
                ) by {
                    let li = sc.all_lines()[i];
                    let lj = sc.all_lines()[j];
                    assert(sc.all_lines().to_multiset() == chunk0.all_lines().to_multiset());
                    assert(sc.all_lines().contains(li));
                    assert(sc.all_lines().contains(lj));
                    crate::model::lemma_to_multiset_contains(
                        sc.all_lines(),
                        chunk0.all_lines(),
                        li,
                    );
                    crate::model::lemma_to_multiset_contains(
                        sc.all_lines(),
                        chunk0.all_lines(),
                        lj,
                    );
                    let ii = choose|ii: int|
                        0 <= ii < chunk0.all_lines().len() && chunk0.all_lines()[ii] == li;
                    let jj = choose|jj: int|
                        0 <= jj < chunk0.all_lines().len() && chunk0.all_lines()[jj] == lj;
                    assert(chunk0.all_lines()[ii].keyed(d, fi));
                    assert(chunk0.all_lines()[jj].keyed(d, fi));
                    assert(crate::model::lex_leq(li.skey(), lj.skey()));
                    assert(sorted_bytes[i] == li.sbytes());
                    assert(sorted_bytes[j] == lj.sbytes());
                }
            }
        }
    }
}

/// Drains the chunk stream; each chunk becomes one sorted run.  The runs
/// together hold exactly the input's lines.
pub fn sort<R: ByteSource>(
    input_chunks: &mut Chunks<R>,
    tmp_dir: &mut TmpDir,
    config: &Configuration,
) -> (r: Result<Vec<ClosedTmpFile>, SortError>)
    requires
        old(input_chunks).chunks_wf(),
        old(input_chunks).spec_config() == *config,
    ensures
        final(tmp_dir).spec_created() >= old(tmp_dir).spec_created(),
        match r {
            Ok(files) => {
                &&& runs_lines(files@).to_multiset() == lines_of(
                    old(input_chunks).pending_bytes(),
                ).to_multiset()
                &&& forall|i: int|
                    0 <= i < files@.len() ==> run_ok(
                        #[trigger] files@[i],
                        config.delimiter,
                        config.field as nat,
                    )
                &&& !some_line_at_least(
                    runs_lines(files@),
                    old(input_chunks).spec_buffer_size() as int,
                )
                &&& !has_long_line(
                    old(input_chunks).pending_bytes(),
                    old(input_chunks).spec_buffer_size() as int,
                )
                &&& final(input_chunks).pending_bytes().len() == 0
                &&& files@.len() * (old(input_chunks).spec_buffer_size() as int) >= old(
                    input_chunks,
                ).pending_bytes().len()
                &&& old(input_chunks).pending_bytes().len() > old(
                    input_chunks,
                ).spec_buffer_size() ==> files@.len() >= 2
            },
            Err(e) => {
                &&& e == (SortError::LineTooLarge {
                    buffer_size: old(input_chunks).spec_buffer_size(),
                })
                &&& has_long_line(
                    old(input_chunks).pending_bytes(),
                    old(input_chunks).spec_buffer_size() as int,
                )
            },
        },
        ({
            let orig = lines_of(old(input_chunks).pending_bytes());
            orig.len() > 0 && orig[0].len() >= old(input_chunks).spec_buffer_size() ==> r is Err
                && final(tmp_dir).spec_created() == old(tmp_dir).spec_created()
        }),
{
    let ghost bsz = old(input_chunks).spec_buffer_size();
    let ghost orig = old(input_chunks).pending_bytes();
    let ghost head_blocked = lines_of(orig).len() > 0 && lines_of(orig)[0].len() >= bsz;
    let mut tmp_files: Vec<ClosedTmpFile> = Vec::new();
    proof {
        assert(runs_lines(tmp_files@) =~= Seq::<Seq<u8>>::empty());
        assert(runs_lines(tmp_files@).to_multiset().add(
            lines_of(input_chunks.pending_bytes()).to_multiset(),
        ) =~= lines_of(old(input_chunks).pending_bytes()).to_multiset());
    }
    loop
        invariant
            input_chunks.chunks_wf(),
            input_chunks.spec_config() == *config,
            input_chunks.spec_buffer_size() == bsz,
            bsz == old(input_chunks).spec_buffer_size(),
            orig == old(input_chunks).pending_bytes(),
            head_blocked == (lines_of(orig).len() > 0 && lines_of(orig)[0].len() >= bsz),
            tmp_dir.spec_created() >= old(tmp_dir).spec_created(),
            runs_lines(tmp_files@).to_multiset().add(
                lines_of(input_chunks.pending_bytes()).to_multiset(),
            ) == lines_of(orig).to_multiset(),
            forall|i: int|
                0 <= i < tmp_files@.len() ==> run_ok(
                    #[trigger] tmp_files@[i],
                    config.delimiter,
                    config.field as nat,
                ),
            !some_line_at_least(runs_lines(tmp_files@), bsz as int),
            orig.len() - input_chunks.pending_bytes().len() <= tmp_files@.len() * (
            bsz as int),
            head_blocked ==> tmp_files@.len() == 0 && tmp_dir.spec_created() == old(
                tmp_dir,
            ).spec_created() && input_chunks.pending_bytes() == orig,
        decreases input_chunks.pending_bytes().len(),
    {
        let ghost pend0 = input_chunks.pending_bytes();
        match input_chunks.next() {
            Ok(Some(chunk)) => {
                let ghost cb = chunk.bytes_seq();
                proof {
                    // a successful read rules out a blocking head line
                    if head_blocked {
                        lemma_head_line_blocks(pend0, bsz as int);
                        assert(false);
                    }
                }
                let mut tmp_file = tmp_dir.create_new_file();
                proof {
                    assert(lines_of(tmp_file.contents()) =~= Seq::<Seq<u8>>::empty());
                    assert(unlines(lines_of(tmp_file.contents())) =~= Seq::<u8>::empty());
                }
                sort_and_write(chunk, &mut tmp_file);
                let ghost bs = lines_of(tmp_file.contents());
                let closed = tmp_file.close();
                let ghost files0 = tmp_files@;
                tmp_files.push(closed);
                proof {
                    assert(closed.spec_contents() == unlines(bs));
                    lemma_round_trip(bs);
                    assert(lines_of(closed.spec_contents()) == bs);
                    assert(run_ok(closed, config.delimiter, config.field as nat)) by {
                        assert(chunk.keyed_by(config.delimiter, config.field as nat));
                        assert(bs.len() == chunk.all_lines().len());
                        assert(chunk.all_lines().len() >= 1);
                    }
                    // fold the new run into the running permutation
                    let f = |x: ClosedTmpFile| lines_of(x.spec_contents());
                    assert(tmp_files@.map_values(f).drop_last() =~= files0.map_values(f));
                    assert(tmp_files@.map_values(f).last() == bs);
                    tmp_files@.map_values(f).lemma_flatten_and_flatten_alt_are_equivalent();
                    files0.map_values(f).lemma_flatten_and_flatten_alt_are_equivalent();
                    assert(tmp_files@.map_values(f).flatten_alt() == tmp_files@.map_values(
                        f,
                    ).drop_last().flatten_alt().add(bs));
                    assert(runs_lines(tmp_files@) == runs_lines(files0) + bs);
                    vstd::seq_lib::lemma_multiset_commutative(runs_lines(files0), bs);
                    assert(lines_of(pend0) == cb + lines_of(input_chunks.pending_bytes()));
                    vstd::seq_lib::lemma_multiset_commutative(
                        cb,
                        lines_of(input_chunks.pending_bytes()),
                    );
                    assert(runs_lines(tmp_files@).to_multiset().add(
                        lines_of(input_chunks.pending_bytes()).to_multiset(),
                    ) =~= lines_of(orig).to_multiset());
                    // the new run's lines are shorter than the read buffer
                    assert forall|i: int|
                        0 <= i < bs.len() implies (#[trigger] bs[i]).len() < bsz by {
                        assert(bs.to_multiset().count(bs[i]) > 0) by {
                            assert(bs.contains(bs[i]));
                        }
                        assert(cb.to_multiset().count(bs[i]) > 0);
                        lemma_to_multiset_contains(bs, cb, bs[i]);
                        let j = choose|j: int| 0 <= j < cb.len() && cb[j] == bs[i];
                        assert(cb[j].len() < bsz);
                    }
                    // one more run, at most one more buffer of input consumed
                    assert((tmp_files@.len() as int) * (bsz as int) == (files0.len() as int) * (
                    bsz as int) + (bsz as int)) by (nonlinear_arith)
                        requires
                            tmp_files@.len() == files0.len() + 1,
                    ;
                    assert(orig.len() - input_chunks.pending_bytes().len() <= tmp_files@.len()
                        * (bsz as int));
                    assert(!some_line_at_least(runs_lines(tmp_files@), bsz as int)) by {
                        if some_line_at_least(runs_lines(tmp_files@), bsz as int) {
                            let i = choose|i: int|
                                0 <= i < runs_lines(tmp_files@).len() && (
                                #[trigger] runs_lines(tmp_files@)[i]).len() >= bsz;
                            if i < runs_lines(files0).len() {
                                assert(runs_lines(files0)[i].len() >= bsz);
                            } else {
                                assert(bs[i - runs_lines(files0).len()].len() >= bsz);
                            }
                        }
                    }
                }
            },
            Ok(None) => {
                proof {
                    assert(lines_of(input_chunks.pending_bytes()) =~= Seq::<Seq<u8>>::empty())
                        by {
                        assert(input_chunks.pending_bytes() =~= Seq::<u8>::empty());
                    }
                    assert(runs_lines(tmp_files@).to_multiset() =~= lines_of(
                        orig,
                    ).to_multiset());
                    // no line of the input reached the buffer size
                    assert(!has_long_line(orig, bsz as int)) by {
                        if has_long_line(orig, bsz as int) {
                            lemma_some_line_at_least_multiset(
                                lines_of(orig),
                                runs_lines(tmp_files@),
                                bsz as int,
                            );
                        }
                    }
                    if head_blocked {
                        assert(pend0 == orig);
                        assert(pend0.len() == 0);
                        assert(lines_of(orig).len() > 0);
                        assert(false);
                    }
                    // enough runs to cover the input, one buffer each
                    assert(tmp_files@.len() * (bsz as int) >= orig.len());
                    if orig.len() > bsz && tmp_files@.len() < 2 {
                        assert(tmp_files@.len() * (bsz as int) <= bsz as int)
                            by (nonlinear_arith)
                            requires
                                tmp_files@.len() <= 1,
                                bsz as int >= 0,
                        ;
                        assert(false);
                    }
                }
                return Ok(tmp_files);
            },
            Err(e) => {
                proof {
                    // the blocking line is one of the input's lines
                    let cur = pend0;
                    let head = lines_of(cur)[0];
                    assert(head.len() >= bsz);
                    assert(lines_of(cur).to_multiset().count(head) > 0) by {
                        assert(lines_of(cur).contains(head));
                    }
                    assert(lines_of(orig).to_multiset().count(head) > 0);
                    assert(lines_of(orig).contains(head));
                    let j = choose|j: int| 0 <= j < lines_of(orig).len() && lines_of(orig)[j]
                        == head;
                    assert(has_long_line(orig, bsz as int)) by {
                        assert(lines_of(orig)[j].len() >= bsz);
                    }
                }
                return Err(e);
            },
        }
    }
}

} // verus!
