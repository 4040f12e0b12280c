//! An external merge sort for line-oriented byte streams: the input splits
//! into memory-sized chunks that are sorted and spilled as runs, and the
//! runs are k-way merged, in cascades when there are many, into one sorted
//! output whose lines are exactly the input's lines.

use vstd::prelude::*;

pub mod chunk;
pub mod config;
pub mod error;
pub mod heap;
pub mod line;
pub mod lines;
pub mod merge;
pub mod model;
pub mod sort;
pub mod source;
pub mod tempfile;
pub mod util;

pub use crate::config::Configuration;
pub use crate::tempfile::TmpDirBuilder;

use crate::chunk::Chunks;
use crate::error::SortError;
use crate::model::{
    lines_of, unlines, sorted_lines, lex_leq, key_of, line_leq, has_long_line,
    some_line_at_least, lemma_lex_refl, lemma_lex_trans, lemma_lex_antisym, lemma_lex_total,
    lemma_some_line_at_least_multiset,
};
use crate::source::ByteSource;
use vstd::string::StringSliceAdditionalSpecFns;
use crate::tempfile::TmpDir;

verus! {

broadcast use vstd::seq_lib::group_to_multiset_ensures;

/// A configuration the driver can run with: at least one worker, a fan-in
/// of at least two that leaves room for index arithmetic, and a budget that
/// admits at least one byte per worker and one per merged run.
pub open spec fn runnable(config: Configuration) -> bool {
    &&& config.threads >= 1
    &&& 2 <= config.chunk_size <= usize::MAX / 4
    &&& config.buffer_size >= config.threads
    &&& config.buffer_size >= config.chunk_size
}

/// The read buffer each initial sort pass gets: the worker's share of the
/// budget, at least one byte.
pub open spec fn sort_read_buffer(c: Configuration) -> int {
    let per = c.buffer_size as int / c.threads as int;
    if per >= 1 {
        per
    } else {
        1int
    }
}

/// Lines strictly shorter than this fit every read buffer of a run: the
/// initial sort passes and the merge passes at full fan-in.
pub open spec fn safe_line_limit(c: Configuration) -> int {
    let srb = sort_read_buffer(c);
    let mrb = crate::merge::merge_read_buffer(c, c.chunk_size as int);
    if srb <= mrb {
        srb
    } else {
        mrb
    }
}

/// Sorts the lines of `input` into `output`: reads everything, spills
/// sorted runs through `tmp_dir`, cascades merges while more than the
/// fan-in remain, and appends the merged result to `output`.  On success
/// the appended bytes are the input's lines in non-decreasing key order,
/// each followed by one newline; on failure `output` is untouched.
///
/// This entry point refuses only what its own arithmetic cannot run
/// (`runnable`); the stricter user-facing bounds, including the minimum
/// memory budget, are `Configuration::validate`'s job, which a driver runs
/// before any I/O.  Tiny budgets are accepted here so that an over-long
/// line surfaces as `LineTooLarge`.
pub fn external_sort<R: ByteSource>(
    input: R,
    output: &mut Vec<u8>,
    tmp_dir: &mut TmpDir,
    config: Configuration,
) -> (r: Result<(), SortError>)
    ensures
        match r {
            Ok(()) => ({
                let added = final(output)@.skip(old(output)@.len() as int);
                &&& final(output)@ == old(output)@ + added
                &&& added == unlines(lines_of(added))
                &&& lines_of(added).to_multiset() == lines_of(
                    input.remaining(),
                ).to_multiset()
                &&& sorted_lines(lines_of(added), config.delimiter, config.field as nat)
            }),
            Err(e) => {
                &&& final(output)@ == old(output)@
                &&& (e == SortError::ConfigInvalid <==> !runnable(config))
                &&& (e != SortError::ConfigInvalid ==> e is LineTooLarge)
            },
        },
        !runnable(config) ==> r == Err::<(), SortError>(SortError::ConfigInvalid),
        runnable(config) && !has_long_line(input.remaining(), safe_line_limit(config)) ==> r
            is Ok,
        runnable(config) && has_long_line(input.remaining(), sort_read_buffer(config)) ==> r
            == Err::<(), SortError>(
            SortError::LineTooLarge { buffer_size: sort_read_buffer(config) as usize },
        ),
        ({
            let orig = lines_of(input.remaining());
            runnable(config) && orig.len() > 0 && orig[0].len() >= sort_read_buffer(config)
                ==> final(tmp_dir).spec_created() == old(tmp_dir).spec_created()
        }),
{
    if !(config.threads >= 1 && config.chunk_size >= 2 && config.chunk_size <= usize::MAX / 4
        && config.buffer_size >= config.threads && config.buffer_size >= config.chunk_size) {
        return Err(SortError::ConfigInvalid);
    }
    let per_thread = config.buffer_size / config.threads;
    let buffer_size = if per_thread >= 1 {
        per_thread
    } else {
        1
    };
    let ghost srb = sort_read_buffer(config);
    let ghost mrb_cs = crate::merge::merge_read_buffer(config, config.chunk_size as int);
    let ghost fits = !has_long_line(input.remaining(), safe_line_limit(config));
    proof {
        assert(buffer_size as int == srb);
        // a line that fits the tightest buffer fits them all
        if fits {
            assert(!has_long_line(input.remaining(), srb)) by {
                if has_long_line(input.remaining(), srb) {
                    let i = choose|i: int|
                        0 <= i < lines_of(input.remaining()).len() && (#[trigger] lines_of(
                            input.remaining(),
                        )[i]).len() >= srb;
                    assert(lines_of(input.remaining())[i].len() >= safe_line_limit(config));
                }
            }
        }
    }
    let mut input_chunks = Chunks::new(input, buffer_size, config);
    let sorted = crate::sort::sort(&mut input_chunks, tmp_dir, &config);
    let mut sorted_files = match sorted {
        Ok(files) => files,
        Err(e) => {
            proof {
                assert(has_long_line(input.remaining(), srb));
            }
            return Err(e);
        },
    };
    proof {
        // no line of the runs reaches the merge read budget
        if fits {
            assert(!some_line_at_least(crate::sort::runs_lines(sorted_files@), mrb_cs)) by {
                if some_line_at_least(crate::sort::runs_lines(sorted_files@), mrb_cs) {
                    let i = choose|i: int|
                        0 <= i < crate::sort::runs_lines(sorted_files@).len() && (
                        #[trigger] crate::sort::runs_lines(sorted_files@)[i]).len() >= mrb_cs;
                    assert(crate::sort::runs_lines(sorted_files@)[i].len() >= safe_line_limit(
                        config,
                    ));
                    lemma_some_line_at_least_multiset(
                        crate::sort::runs_lines(sorted_files@),
                        lines_of(input.remaining()),
                        safe_line_limit(config),
                    );
                }
            }
        }
    }
    if sorted_files.len() == 0 {
        proof {
            assert(crate::sort::runs_lines(sorted_files@) =~= Seq::<Seq<u8>>::empty());
            assert(lines_of(input.remaining()).to_multiset().len() == 0);
            assert(final(output)@.skip(old(output)@.len() as int) =~= Seq::<u8>::empty());
            assert(final(output)@ =~= old(output)@ + Seq::<u8>::empty());
            assert(lines_of(Seq::<u8>::empty()) == Seq::<Seq<u8>>::empty());
            assert(unlines(Seq::<Seq<u8>>::empty()) == Seq::<u8>::empty());
            assert(lines_of(Seq::<u8>::empty()).to_multiset() =~= lines_of(
                input.remaining(),
            ).to_multiset());
        }
        return Ok(());
    }
    // keep merging until the run count fits one final fan-in
    while sorted_files.len() > config.chunk_size
        invariant
            runnable(config),
            output@ == old(output)@,
            sorted_files@.len() >= 1,
            crate::sort::runs_lines(sorted_files@).to_multiset() == lines_of(
                input.remaining(),
            ).to_multiset(),
            forall|i: int|
                0 <= i < sorted_files@.len() ==> crate::sort::run_sorted(
                    #[trigger] sorted_files@[i],
                    config.delimiter,
                    config.field as nat,
                ),
            mrb_cs == crate::merge::merge_read_buffer(config, config.chunk_size as int),
            srb == sort_read_buffer(config),
            !has_long_line(input.remaining(), srb),
            fits == !has_long_line(input.remaining(), safe_line_limit(config)),
            fits ==> !some_line_at_least(crate::sort::runs_lines(sorted_files@), mrb_cs),
        decreases sorted_files@.len(),
    {
        let merged = crate::merge::merge(sorted_files, tmp_dir, &config);
        match merged {
            Ok(files) => {
                proof {
                    if fits {
                        assert(!some_line_at_least(crate::sort::runs_lines(files@), mrb_cs))
                            by {
                            if some_line_at_least(crate::sort::runs_lines(files@), mrb_cs) {
                                lemma_some_line_at_least_multiset(
                                    crate::sort::runs_lines(files@),
                                    crate::sort::runs_lines(sorted_files@),
                                    mrb_cs,
                                );
                            }
                        }
                    }
                }
                sorted_files = files;
            },
            Err(e) => {
                proof {
                    assert(e is LineTooLarge);
                    assert(e != SortError::ConfigInvalid);
                    if fits {
                        assert(false);
                    }
                    // no line blocks the sort buffer, so the owed-error and
                    // untouched-counter hypotheses cannot hold here
                    let orig = lines_of(input.remaining());
                    if orig.len() > 0 && orig[0].len() >= srb {
                        assert(has_long_line(input.remaining(), srb)) by {
                            assert(orig[0].len() >= srb);
                        }
                        assert(false);
                    }
                }
                return Err(e);
            },
        }
    }
    // one final merge straight into the output
    proof {
        if fits {
            // the final fan-in is at most the configured one, so its read
            // budget is no tighter
            crate::merge::lemma_merge_read_buffer_antitone(
                config,
                sorted_files@.len() as int,
                config.chunk_size as int,
            );
            assert(!some_line_at_least(
                crate::sort::runs_lines(sorted_files@),
                crate::merge::merge_read_buffer(config, sorted_files@.len() as int),
            )) by {
                if some_line_at_least(
                    crate::sort::runs_lines(sorted_files@),
                    crate::merge::merge_read_buffer(config, sorted_files@.len() as int),
                ) {
                    let i = choose|i: int|
                        0 <= i < crate::sort::runs_lines(sorted_files@).len() && (
                        #[trigger] crate::sort::runs_lines(sorted_files@)[i]).len()
                            >= crate::merge::merge_read_buffer(
                            config,
                            sorted_files@.len() as int,
                        );
                    assert(crate::sort::runs_lines(sorted_files@)[i].len() >= mrb_cs);
                }
            }
        }
    }
    let res = crate::merge::merge_and_write(sorted_files, output, &config);
    match res {
        Ok(()) => Ok(()),
        Err(e) => {
            proof {
                assert(e != SortError::ConfigInvalid);
                if fits {
                    assert(false);
                }
                let orig = lines_of(input.remaining());
                if orig.len() > 0 && orig[0].len() >= srb {
                    assert(has_long_line(input.remaining(), srb)) by {
                        assert(orig[0].len() >= srb);
                    }
                    assert(false);
                }
            }
            Err(e)
        },
    }
}

/// The first byte of the argument names the field delimiter; an empty
/// argument is refused.
pub fn parse_delimiter(s: &str) -> (r: Result<u8, String>)
    ensures
        r is Ok <==> s.spec_bytes().len() > 0,
        r matches Ok(b) ==> b == s.spec_bytes()[0],
{
    let bytes = s.as_bytes();
    if bytes.len() == 0 {
        Err("Invalid delimiter".to_owned())
    } else {
        Ok(bytes[0])
    }
}

/// With whole-line keys, the sorted arrangement of a given
/// multiset of lines is unique.  Any two line sequences that are sorted and
/// hold the same lines are equal, whatever mix of budgets, fan-ins or
/// schedules produced them.
pub proof fn lemma_sorted_arrangement_unique(x: Seq<Seq<u8>>, y: Seq<Seq<u8>>, d: u8)
    requires
        sorted_lines(x, d, 0),
        sorted_lines(y, d, 0),
        x.to_multiset() == y.to_multiset(),
    ensures
        x == y,
{
    let leq = |a: Seq<u8>, b: Seq<u8>| lex_leq(a, b);
    assert(vstd::relations::total_ordering(leq)) by {
        assert forall|a: Seq<u8>| #[trigger] leq(a, a) by {
            lemma_lex_refl(a);
        }
        assert forall|a: Seq<u8>, b: Seq<u8>| #[trigger] leq(a, b) && #[trigger] leq(b, a)
            implies a == b by {
            lemma_lex_antisym(a, b);
        }
        assert forall|a: Seq<u8>, b: Seq<u8>, c: Seq<u8>|
            #[trigger] leq(a, b) && #[trigger] leq(b, c) implies leq(a, c) by {
            lemma_lex_trans(a, b, c);
        }
        assert forall|a: Seq<u8>, b: Seq<u8>| #[trigger] leq(a, b) || #[trigger] leq(b, a) by {
            lemma_lex_total(a, b);
        }
    }
    assert(vstd::relations::sorted_by(x, leq)) by {
        assert forall|i: int, j: int| 0 <= i < j < x.len() implies #[trigger] leq(x[i], x[j]) by {
            assert(line_leq(x[i], x[j], d, 0));
            assert(key_of(x[i], d, 0) == x[i]);
            assert(key_of(x[j], d, 0) == x[j]);
        }
    }
    assert(vstd::relations::sorted_by(y, leq)) by {
        assert forall|i: int, j: int| 0 <= i < j < y.len() implies #[trigger] leq(y[i], y[j]) by {
            assert(line_leq(y[i], y[j], d, 0));
        }
    }
    vstd::seq_lib::lemma_sorted_unique(x, y, leq);
    assert(x =~= y);
}

/// With whole-line keys the sorter's output bytes are
/// determined by the input's lines alone.  Two normalised sorted streams
/// over the same multiset of lines are byte-identical; hence sorting an
/// already-sorted stream reproduces it, and any two runs over the same
/// input, whatever their memory budgets, emit identical bytes.
pub proof fn lemma_output_bytes_unique(a: Seq<u8>, b: Seq<u8>, d: u8)
    requires
        a == unlines(lines_of(a)),
        b == unlines(lines_of(b)),
        sorted_lines(lines_of(a), d, 0),
        sorted_lines(lines_of(b), d, 0),
        lines_of(a).to_multiset() == lines_of(b).to_multiset(),
    ensures
        a == b,
{
    lemma_sorted_arrangement_unique(lines_of(a), lines_of(b), d);
}

} // verus!
