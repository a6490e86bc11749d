//! What holds of every merge: the input's lines come out unchanged and in
//! order, with keyword lines put only before end lines, and the structural
//! errors stop the merge where they arise.
use vstd::prelude::*;
use crate::scan::{
    end_tag, keyword_line, keyword_lines, lemma_run_error_persists, line_parts,
    merged, run, step, type_tag, Fault, ScanState,
};
use crate::text::{lemma_split_once_at, trim_end, trim_start, trimmed};

verus! {

/// The lines written when `blocks[i]` is put before the `i`-th line and
/// blank lines are left out.
pub open spec fn interleave(lines: Seq<Seq<char>>, blocks: Seq<Seq<Seq<char>>>) -> Seq<Seq<char>>
    decreases lines.len(),
{
    if lines.len() == 0 {
        Seq::empty()
    } else {
        interleave(lines.drop_last(), blocks.drop_last()) + blocks[lines.len() - 1] + (if lines.last().len()
            == 0 {
            Seq::empty()
        } else {
            seq![lines.last()]
        })
    }
}

/// Whether `block` may stand before `line`: nothing, or the keyword lines of
/// a title of the index before an end line.
pub open spec fn keyword_block(
    line: Seq<char>,
    block: Seq<Seq<char>>,
    index: Map<Seq<char>, Seq<Seq<char>>>,
) -> bool {
    block.len() == 0 || ((exists|title: Seq<char>| #[trigger]
        index.contains_key(title) && block == keyword_lines(index[title])) && (line_parts(line) matches Some(
        (tag, _),
    ) && tag == end_tag()))
}

/// The blocks of keyword lines that a successful run put before each line.
proof fn lemma_run_blocks(lines: Seq<Seq<char>>, index: Map<Seq<char>, Seq<Seq<char>>>) -> (blocks:
    Seq<Seq<Seq<char>>>)
    requires
        run(lines, index) is Ok,
    ensures
        blocks.len() == lines.len(),
        forall|i: int| 0 <= i < lines.len() ==> keyword_block(lines[i], #[trigger] blocks[i], index),
        match run(lines, index) {
            Ok((_, out)) => out == interleave(lines, blocks),
            Err(_) => false,
        },
    decreases lines.len(),
{
    if lines.len() == 0 {
        Seq::empty()
    } else {
        let pre = lines.drop_last();
        let last = lines.last();
        let n = lines.len() - 1;
        let earlier = lemma_run_blocks(pre, index);
        let (state, out) = run(pre, index)->Ok_0;
        let (next, written) = step(state, n, last, index)->Ok_0;
        let block = if written.len() > 0 {
            written.drop_last()
        } else {
            Seq::empty()
        };
        if last.len() > 0 {
            match line_parts(last) {
                None => {},
                Some((tag, _)) => match state {
                    ScanState::FoundTitle(title) => {
                        if tag == end_tag() {
                            assert(index.contains_key(title) && block == keyword_lines(
                                index[title],
                            ));
                        }
                    },
                    _ => {},
                },
            }
            assert(written =~= block + seq![last]);
        } else {
            assert(written =~= block);
        }
        let blocks = earlier.push(block);
        assert(blocks.drop_last() =~= earlier);
        assert forall|i: int| 0 <= i < lines.len() implies keyword_block(
            lines[i],
            #[trigger] blocks[i],
            index,
        ) by {
            if i < n {
                assert(lines[i] == pre[i]);
                assert(blocks[i] == earlier[i]);
            }
        }
        assert(interleave(lines, blocks) =~= out + written);
        blocks
    }
}

/// A merge that succeeds writes every nonblank line of its input, unchanged
/// and in order, and adds nothing but the keyword lines of an indexed title,
/// each block just before an end line.
pub proof fn lemma_merge_keeps_lines(lines: Seq<Seq<char>>, index: Map<Seq<char>, Seq<Seq<char>>>)
    requires
        merged(lines, index) is Ok,
    ensures
        exists|blocks: Seq<Seq<Seq<char>>>|
            {
                &&& blocks.len() == lines.len()
                &&& forall|i: int|
                    0 <= i < lines.len() ==> keyword_block(lines[i], #[trigger] blocks[i], index)
                &&& merged(lines, index) == Ok::<Seq<Seq<char>>, Fault>(
                    #[trigger] interleave(lines, blocks),
                )
            },
{
    let blocks = lemma_run_blocks(lines, index);
    assert(merged(lines, index) == Ok::<Seq<Seq<char>>, Fault>(interleave(lines, blocks)));
}

/// A stream whose first line carries another tag than `TY` is refused at
/// that line, naming the tag, and nothing is written.
pub proof fn lemma_bad_first_tag(lines: Seq<Seq<char>>, index: Map<Seq<char>, Seq<Seq<char>>>)
    requires
        lines.len() > 0,
        line_parts(lines[0]) is Some,
        line_parts(lines[0])->Some_0.0 != type_tag(),
    ensures
        run(lines.take(1), index) == Err::<(ScanState, Seq<Seq<char>>), Fault>(
            Fault::InvalidFileStart(line_parts(lines[0])->Some_0.0),
        ),
        merged(lines, index) == Err::<Seq<Seq<char>>, Fault>(
            Fault::InvalidFileStart(line_parts(lines[0])->Some_0.0),
        ),
{
    let first = lines.take(1);
    assert(first.drop_last() =~= Seq::<Seq<char>>::empty());
    assert(first.last() == lines[0]);
    assert(run(first.drop_last(), index) == Ok::<(ScanState, Seq<Seq<char>>), Fault>(
        (ScanState::StartParsing, Seq::empty()),
    ));
    assert(lines[0].len() > 0);
    assert(step(ScanState::StartParsing, 0, lines[0], index) == Err::<(ScanState, Seq<Seq<char>>), Fault>(
        Fault::InvalidFileStart(line_parts(lines[0])->Some_0.0),
    ));
    lemma_run_error_persists(lines, 1, index);
}

/// A stream that ends inside a record whose title has not been seen is
/// refused.
pub proof fn lemma_open_record_at_end(lines: Seq<Seq<char>>, index: Map<Seq<char>, Seq<Seq<char>>>)
    requires
        run(lines, index) is Ok,
        run(lines, index)->Ok_0.0 == ScanState::LookingForTitle,
    ensures
        merged(lines, index) == Err::<Seq<Seq<char>>, Fault>(Fault::UnterminatedRecord),
{
}

/// A record whose title is not in the index is refused at its end line,
/// naming the title and the line, and no keyword line is written for it.
pub proof fn lemma_unknown_title(
    title: Seq<char>,
    n: int,
    line: Seq<char>,
    index: Map<Seq<char>, Seq<Seq<char>>>,
)
    requires
        !index.contains_key(title),
        line_parts(line) is Some,
        line_parts(line)->Some_0.0 == end_tag(),
    ensures
        step(ScanState::FoundTitle(title), n, line, index) == Err::<
            (ScanState, Seq<Seq<char>>),
            Fault,
        >(Fault::UnknownTitle(title, n + 1)),
{
    assert(line.len() > 0);
}

/// Each block twice over.
pub open spec fn doubled(blocks: Seq<Seq<Seq<char>>>) -> Seq<Seq<Seq<char>>> {
    blocks.map_values(|b: Seq<Seq<char>>| b + b)
}

/// A keyword line is tagged `KW`.
proof fn lemma_keyword_line_parts(tag: Seq<char>)
    ensures
        line_parts(keyword_line(tag)) is Some,
        line_parts(keyword_line(tag))->Some_0.0 == seq!['K', 'W'],
{
    let line = keyword_line(tag);
    assert(line[4] == '-');
    lemma_split_once_at(line, '-', 4);
    let head = line.subrange(0, 4);
    assert(head =~= seq!['K', 'W', ' ', ' ']);
    assert(trim_start(head) == head);
    assert(head.drop_last() =~= seq!['K', 'W', ' ']);
    assert(head.drop_last().drop_last() =~= seq!['K', 'W']);
    assert(trim_end(seq!['K', 'W']) == seq!['K', 'W']);
    assert(trim_end(seq!['K', 'W', ' ']) == seq!['K', 'W']);
    assert(trimmed(head) == seq!['K', 'W']);
}

/// Inside a record whose title has been seen, keyword lines are written as
/// they are and leave the state alone.
proof fn lemma_keywords_pass(
    lines: Seq<Seq<char>>,
    tags: Seq<Seq<char>>,
    title: Seq<char>,
    out: Seq<Seq<char>>,
    index: Map<Seq<char>, Seq<Seq<char>>>,
)
    requires
        run(lines, index) == Ok::<(ScanState, Seq<Seq<char>>), Fault>(
            (ScanState::FoundTitle(title), out),
        ),
    ensures
        run(lines + keyword_lines(tags), index) == Ok::<(ScanState, Seq<Seq<char>>), Fault>(
            (ScanState::FoundTitle(title), out + keyword_lines(tags)),
        ),
    decreases tags.len(),
{
    if tags.len() == 0 {
        assert(lines + keyword_lines(tags) =~= lines);
        assert(out + keyword_lines(tags) =~= out);
    } else {
        let fewer = tags.drop_last();
        lemma_keywords_pass(lines, fewer, title, out, index);
        let all = lines + keyword_lines(tags);
        let kw = keyword_line(tags.last());
        assert(all.drop_last() =~= lines + keyword_lines(fewer));
        assert(all.last() == kw);
        lemma_keyword_line_parts(tags.last());
        assert(kw.len() > 0);
        assert(seq!['K', 'W'] != end_tag()) by {
            assert(seq!['K', 'W'][0] != end_tag()[0]);
        }
        assert(out + keyword_lines(fewer) + seq![kw] =~= out + keyword_lines(tags));
    }
}

/// Running the scanner again over what it wrote goes through the same states
/// and writes each block of keyword lines twice.
proof fn lemma_rerun(lines: Seq<Seq<char>>, index: Map<Seq<char>, Seq<Seq<char>>>) -> (blocks: Seq<
    Seq<Seq<char>>,
>)
    requires
        run(lines, index) is Ok,
    ensures
        blocks.len() == lines.len(),
        run(lines, index)->Ok_0.1 == interleave(lines, blocks),
        run(interleave(lines, blocks), index) == Ok::<(ScanState, Seq<Seq<char>>), Fault>(
            (run(lines, index)->Ok_0.0, interleave(lines, doubled(blocks))),
        ),
    decreases lines.len(),
{
    if lines.len() == 0 {
        Seq::empty()
    } else {
        let pre = lines.drop_last();
        let last = lines.last();
        let n = lines.len() - 1;
        let earlier = lemma_rerun(pre, index);
        let (state, out) = run(pre, index)->Ok_0;
        let (next, written) = step(state, n, last, index)->Ok_0;
        let again = interleave(pre, earlier);
        let again_out = interleave(pre, doubled(earlier));
        assert(run(again, index) == Ok::<(ScanState, Seq<Seq<char>>), Fault>((state, again_out)));
        let block = if written.len() > 0 {
            written.drop_last()
        } else {
            Seq::empty()
        };
        let blocks = earlier.push(block);
        assert(blocks.drop_last() =~= earlier);
        assert(doubled(blocks).drop_last() =~= doubled(earlier));
        assert(doubled(blocks)[n] == block + block);
        if last.len() == 0 {
            assert(interleave(lines, blocks) =~= again);
            assert(interleave(lines, doubled(blocks)) =~= again_out);
        } else {
            let second = again.push(last);
            assert(second.drop_last() =~= again);
            if block.len() == 0 {
                assert(written =~= seq![last]);
                assert(step(state, again.len() as int, last, index) == step(state, n, last, index));
                assert(interleave(lines, blocks) =~= second);
                assert(interleave(lines, doubled(blocks)) =~= again_out + seq![last]);
            } else {
                let title = state->FoundTitle_0;
                let tags = index[title];
                assert(block =~= keyword_lines(tags));
                lemma_keywords_pass(again, tags, title, again_out, index);
                let with_block = again + block;
                let full = with_block.push(last);
                assert(full.drop_last() =~= with_block);
                assert(step(state, with_block.len() as int, last, index) == step(state, n, last, index));
                assert(interleave(lines, blocks) =~= full);
                assert(interleave(lines, doubled(blocks)) =~= again_out + block + block + seq![last]);
                assert(again_out + block + written =~= again_out + block + block + seq![last]);
            }
        }
        blocks
    }
}

/// Merging the output of a merge again writes each block of keyword lines a
/// second time, right after the first: no tag is dropped or merged with an
/// equal one, and the order stays.
pub proof fn lemma_remerge_repeats_keywords(
    lines: Seq<Seq<char>>,
    index: Map<Seq<char>, Seq<Seq<char>>>,
)
    requires
        merged(lines, index) is Ok,
    ensures
        exists|blocks: Seq<Seq<Seq<char>>>|
            {
                &&& blocks.len() == lines.len()
                &&& merged(lines, index) == Ok::<Seq<Seq<char>>, Fault>(
                    #[trigger] interleave(lines, blocks),
                )
                &&& merged(interleave(lines, blocks), index) == Ok::<Seq<Seq<char>>, Fault>(
                    interleave(lines, doubled(blocks)),
                )
            },
{
    let blocks = lemma_rerun(lines, index);
    assert(merged(interleave(lines, blocks), index) == Ok::<Seq<Seq<char>>, Fault>(
        interleave(lines, doubled(blocks)),
    ));
}

} // verus!
