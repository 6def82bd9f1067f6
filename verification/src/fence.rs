//! Fenced code blocks.
use crate::text::{
    law_leading_run, law_trimming_is_idempotent, leading, lemma_leading, lemma_trimmed_at, to_chars,
    trim, trimmed, white_space,
};
use vstd::prelude::*;

verus! {

/// An open fence: its marker character and the length of its run.
pub type OpenFence = Option<(char, nat)>;

/// The marker character, the length of the marker run and the info string of
/// a fence line without the white space around it; none where the line is not
/// a fence.
pub open spec fn fence(line: Seq<char>) -> Option<(char, nat, Seq<char>)> {
    if line.len() > 0 && (line[0] == '`' || line[0] == '~') && leading(line, line[0]) >= 3 {
        let run = leading(line, line[0]);
        Some((line[0], run as nat, line.skip(run)))
    } else {
        None
    }
}

/// Whether `line` closes the fence: a run of the same marker, at least as
/// long, and no info string.
pub open spec fn closes(open: (char, nat), line: Seq<char>) -> bool {
    match fence(trimmed(line)) {
        Some((marker, run, info)) => marker == open.0 && run >= open.1 && trimmed(info).len() == 0,
        None => false,
    }
}

/// The open fence after `line`.
pub open spec fn next_fence(open: OpenFence, line: Seq<char>) -> OpenFence {
    match open {
        Some(block) => if closes(block, line) {
            None
        } else {
            open
        },
        None => match fence(trimmed(line)) {
            Some((marker, run, _)) => Some((marker, run)),
            None => None,
        },
    }
}

/// Whether `line` is prose: outside any block and not itself a fence.
pub open spec fn prose(open: OpenFence, line: Seq<char>) -> bool {
    open is None && fence(trimmed(line)) is None
}

/// The open fence after all of `lines`, none being open before them.
pub open spec fn fence_after(lines: Seq<Seq<char>>) -> OpenFence
    decreases lines.len(),
{
    if lines.len() == 0 {
        None
    } else {
        next_fence(fence_after(lines.drop_last()), lines.last())
    }
}

/// Splits a fence line into its marker character, the length of its marker run,
/// and the info string that follows. `None` when the line is not a fence.
pub fn fence_parts(line: &str) -> (r: Option<(char, usize, String)>)
    ensures
        match r {
            Some((marker, len, info)) => fence(line@) == Some((marker, len as nat, info@)),
            None => fence(line@) is None,
        },
{
    let chars: Vec<char> = to_chars(line);
    if chars.len() == 0 {
        return None;
    }
    let marker: char = chars[0];
    if marker != '`' && marker != '~' {
        return None;
    }
    let n: usize = chars.len();
    let mut len: usize = 0;
    assert(line@.skip(0) =~= line@);
    while len < n && chars[len] == marker
        invariant
            len <= n,
            n == chars.len(),
            chars@ == line@,
            leading(line@, marker) == len + leading(line@.skip(len as int), marker),
        decreases n - len,
    {
        assert(line@.skip(len as int).drop_first() =~= line@.skip(len + 1));
        len += 1;
    }
    if len < 3 {
        return None;
    }
    let info: String = line.substring_char(len, n).to_owned();
    assert(info@ =~= line@.skip(len as int));
    Some((marker, len, info))
}

/// Tracks which lines sit inside a fenced code block, so their contents are
/// not scanned for file references.
///
/// A single boolean is not enough: a fence closes only on a run of the same
/// marker character at least as long as the one that opened it, so a ``` line
/// inside a ```` block is content rather than a close.
pub struct FenceTracker {
    /// The open fence's marker character and run length, `None` outside a block.
    open: Option<(char, usize)>,
}

impl View for FenceTracker {
    type V = OpenFence;

    closed spec fn view(&self) -> OpenFence {
        match self.open {
            Some((marker, len)) => Some((marker, len as nat)),
            None => None,
        }
    }
}

impl Default for FenceTracker {
    /// Starts outside any block.
    fn default() -> (r: Self)
        ensures
            r@ is None,
    {
        FenceTracker { open: None }
    }
}

impl FenceTracker {
    /// Feeds the tracker one line and reports whether that line's content
    /// should be scanned. Fence lines themselves never are.
    pub fn scan_line(&mut self, line: &str) -> (r: bool)
        ensures
            r == prose(old(self)@, line@),
            final(self)@ == next_fence(old(self)@, line@),
    {
        let parts: Option<(char, usize, String)> = fence_parts(trim(line));
        match parts {
            None => {
                match self.open {
                    Some(_) => false,
                    None => true,
                }
            },
            Some((marker, len, info)) => {
                match self.open {
                    // Inside a block, only a matching fence closes it: same
                    // marker, at least as long, and no info string. Anything
                    // else (a shorter run, the other marker, ```rust) is block
                    // content.
                    Some((open_marker, open_len)) => {
                        if marker == open_marker && len >= open_len && trim(
                            info.as_str(),
                        ).is_empty() {
                            self.open = None;
                        }
                    },
                    None => {
                        self.open = Some((marker, len));
                    },
                }
                false
            },
        }
    }
}

/// Inside a block, lines that do not close it leave it open, and none of them
/// is prose: a shorter run of the marker, the other marker and a fence with an
/// info string are all block content.
pub proof fn law_block_hides_lines(open: (char, nat), lines: Seq<Seq<char>>, before: Seq<Seq<char>>)
    requires
        fence_after(before) == Some(open),
        forall|i: int| 0 <= i < lines.len() ==> !closes(open, #[trigger] lines[i]),
    ensures
        fence_after(before + lines) == Some(open),
        forall|i: int|
            0 <= i < lines.len() ==> !prose(
                fence_after(before + lines.take(i)),
                #[trigger] lines[i],
            ),
    decreases lines.len(),
{
    if lines.len() == 0 {
        assert(before + lines =~= before);
    } else {
        let front = lines.drop_last();
        assert forall|i: int| 0 <= i < front.len() implies !closes(open, #[trigger] front[i]) by {
            assert(front[i] == lines[i]);
        }
        law_block_hides_lines(open, front, before);
        assert((before + lines).drop_last() =~= before + front);
        assert((before + lines).last() == lines.last());
        assert(lines[lines.len() - 1] == lines.last());
        assert forall|i: int| 0 <= i < lines.len() implies !prose(
            fence_after(before + lines.take(i)),
            #[trigger] lines[i],
        ) by {
            if i < front.len() {
                assert(front[i] == lines[i]);
                assert(front.take(i) =~= lines.take(i));
            } else {
                assert(lines.take(i) =~= front);
            }
        }
    }
}

/// A closed block leaves no trace: the line behind the closing fence is read
/// as if there had been no block.
pub proof fn law_closed_block_ends(open: (char, nat), before: Seq<Seq<char>>, line: Seq<char>)
    requires
        fence_after(before) == Some(open),
        closes(open, line),
    ensures
        fence_after(before.push(line)) is None,
        !prose(fence_after(before), line),
{
    assert(before.push(line).drop_last() =~= before);
}

/// What makes a line a fence: three or more of one marker in front, with
/// anything behind them.
pub proof fn law_fence_lines(marker: char, run: nat, info: Seq<char>)
    requires
        info.len() > 0 ==> info[0] != marker,
        run > 0,
    ensures
        (marker == '`' || marker == '~') && run >= 3 ==> fence(
            Seq::new(run, |i: int| marker) + info,
        ) == Some((marker, run, info)),
        !((marker == '`' || marker == '~') && run >= 3) ==> fence(
            Seq::new(run, |i: int| marker) + info,
        ) is None,
        fence(Seq::empty()) is None,
{
    let line = Seq::new(run, |i: int| marker) + info;
    law_leading_run(marker, run, info);
    assert(line[0] == marker);
    assert(line.skip(run as int) =~= info);
}

/// The parts of a fence line.
proof fn lemma_fence(line: Seq<char>)
    ensures
        match fence(line) {
            Some((marker, run, info)) => {
                &&& marker == '`' || marker == '~'
                &&& 3 <= run <= line.len()
                &&& info == line.skip(run as int)
                &&& forall|i: int| 0 <= i < run ==> #[trigger] line[i] == marker
                &&& info.len() > 0 ==> info[0] != marker
            },
            None => !"```"@.is_prefix_of(line) && !"~~~"@.is_prefix_of(line),
        },
{
    reveal_strlit("```");
    reveal_strlit("~~~");
    if line.len() > 0 {
        lemma_leading(line, line[0]);
        let run = leading(line, line[0]);
        if fence(line) is None && ("```"@.is_prefix_of(line) || "~~~"@.is_prefix_of(line)) {
            let head = line.subrange(0, 3);
            assert(head[0] == line[0]);
            assert(head[1] == line[1]);
            assert(head[2] == line[2]);
        }
    }
}

/// A fence that is open has three or more of one marker.
proof fn lemma_open_fence(lines: Seq<Seq<char>>)
    ensures
        fence_after(lines) matches Some((marker, run)) ==> run >= 3 && (marker == '`' || marker
            == '~'),
    decreases lines.len(),
{
    if lines.len() > 0 {
        lemma_open_fence(lines.drop_last());
        lemma_fence(trimmed(lines.last()));
    }
}

/// Outside a block every fence line opens one, whatever info string it carries.
pub proof fn law_fence_opens_block(
    before: Seq<Seq<char>>,
    line: Seq<char>,
    marker: char,
    run: nat,
    info: Seq<char>,
)
    requires
        fence_after(before) is None,
        trimmed(line) == Seq::new(run, |i: int| marker) + info,
        marker == '`' || marker == '~',
        run >= 3,
        info.len() > 0 ==> info[0] != marker,
    ensures
        fence_after(before.push(line)) == Some((marker, run)),
        !prose(fence_after(before), line),
{
    law_fence_lines(marker, run, info);
    assert(before.push(line).drop_last() =~= before);
}

/// Outside a block every line that is no fence is prose, and stays outside; no
/// line before the first is in a block.
pub proof fn law_prose_outside_blocks(before: Seq<Seq<char>>, line: Seq<char>)
    ensures
        fence_after(Seq::empty()) is None,
        prose(fence_after(before), line) <==> fence_after(before) is None && !"```"@.is_prefix_of(
            trimmed(line),
        ) && !"~~~"@.is_prefix_of(trimmed(line)),
        prose(fence_after(before), line) ==> fence_after(before.push(line)) is None,
{
    reveal_strlit("```");
    reveal_strlit("~~~");
    let text = trimmed(line);
    assert(before.push(line).drop_last() =~= before);
    lemma_fence(text);
    if fence(text) is Some {
        let run = text.subrange(0, 3);
        assert(run[0] == text[0] && run[1] == text[1] && run[2] == text[2]);
        if text[0] == '`' {
            assert(run =~= "```"@);
        } else {
            assert(run =~= "~~~"@);
        }
    }
}

/// Inside a block exactly those lines close it that hold nothing but its marker,
/// at least as many times as the opening fence; every other line leaves it
/// open.
pub proof fn law_block_closes(before: Seq<Seq<char>>, line: Seq<char>, marker: char, run: nat)
    requires
        fence_after(before) == Some((marker, run)),
    ensures
        fence_after(before.push(line)) is None <==> trimmed(line).len() >= run && forall|i: int|
            0 <= i < trimmed(line).len() ==> #[trigger] trimmed(line)[i] == marker,
        fence_after(before.push(line)) is Some ==> fence_after(before.push(line)) == Some(
            (marker, run),
        ),
{
    let text = trimmed(line);
    assert(before.push(line).drop_last() =~= before);
    lemma_open_fence(before);
    lemma_fence(text);
    law_trimming_is_idempotent(line);
    if closes((marker, run), line) {
        let (m, n, info) = fence(text)->0;
        let (lo, hi) = lemma_trimmed_at(info);
        assert(lo == hi);
        if info.len() > 0 {
            assert(text[text.len() - 1] == info[info.len() - 1]);
            assert(white_space(info[info.len() - 1]));
        }
    } else if text.len() >= run && forall|i: int| 0 <= i < text.len() ==> #[trigger] text[i] == marker {
        let none = Seq::<char>::empty();
        law_fence_lines(marker, text.len(), none);
        assert(Seq::new(text.len(), |i: int| marker) + none =~= text);
    }
}

} // verus!
