//! One-line summaries of tracked processes.

use vstd::prelude::*;

use crate::text::{push_char, push_signed_decimal, push_str, signed_decimal};
use crate::types::ProcessInfo;

verus! {

/// The longest command summary, in characters.
pub const MAX_COMMAND_SUMMARY_CHARS: usize = 48;

/// The most processes the process panel lists.
pub const MAX_PROCESS_ROWS: usize = 4;

/// Whether a character is white space (the Unicode White_Space property,
/// as `char::is_whitespace` decides it).
pub open spec fn is_space(c: char) -> bool {
    ||| c == '\t'
    ||| c == '\n'
    ||| c == '\u{0B}'
    ||| c == '\u{0C}'
    ||| c == '\r'
    ||| c == ' '
    ||| c == '\u{85}'
    ||| c == '\u{A0}'
    ||| c == '\u{1680}'
    ||| ('\u{2000}' <= c && c <= '\u{200A}')
    ||| c == '\u{2028}'
    ||| c == '\u{2029}'
    ||| c == '\u{202F}'
    ||| c == '\u{205F}'
    ||| c == '\u{3000}'
}

fn is_space_exec(c: char) -> (r: bool)
    ensures
        r == is_space(c),
{
    c == '\t' || c == '\n' || c == '\u{0B}' || c == '\u{0C}' || c == '\r' || c == ' ' || c
        == '\u{85}' || c == '\u{A0}' || c == '\u{1680}' || ('\u{2000}' <= c && c <= '\u{200A}')
        || c == '\u{2028}' || c == '\u{2029}' || c == '\u{202F}' || c == '\u{205F}' || c
        == '\u{3000}'
}

/// The words of a text: its maximal runs of characters that are not white
/// space, in order.
pub open spec fn words(s: Seq<char>) -> Seq<Seq<char>>
    decreases s.len(),
{
    if s.len() == 0 {
        Seq::empty()
    } else {
        let w = words(s.drop_last());
        let c = s.last();
        if is_space(c) {
            w
        } else if s.len() > 1 && !is_space(s[s.len() - 2]) {
            w.update(w.len() - 1, w.last().push(c))
        } else {
            w.push(seq![c])
        }
    }
}

/// Texts joined with single spaces.
pub open spec fn join_spaced(w: Seq<Seq<char>>) -> Seq<char>
    decreases w.len(),
{
    if w.len() == 0 {
        Seq::empty()
    } else if w.len() == 1 {
        w[0]
    } else {
        join_spaced(w.drop_last()) + seq![' '] + w.last()
    }
}

/// A command with its white space collapsed: its words joined by single
/// spaces.
pub open spec fn normalized_command(s: Seq<char>) -> Seq<char> {
    join_spaced(words(s))
}

/// The command summary: the normalized command, cut to `max` characters
/// with "..." appended when longer.
pub open spec fn command_summary(s: Seq<char>, max: nat) -> Seq<char> {
    let n = normalized_command(s);
    if n.len() <= max {
        n
    } else {
        n.subrange(0, max as int) + "..."@
    }
}

/// A text padded with spaces on the right to at least `width` characters.
pub open spec fn pad_right(t: Seq<char>, width: nat) -> Seq<char> {
    if t.len() >= width {
        t
    } else {
        t + Seq::new((width - t.len()) as nat, |i: int| ' ')
    }
}

/// The summary line of a process: "PID", the PID left-aligned in six
/// columns, the name, and the command summary when there is a command.
pub open spec fn process_summary(p: ProcessInfo) -> Seq<char> {
    let head = "PID "@ + pad_right(signed_decimal(p.pid as int), 6) + seq![' '] + p.name@;
    match p.command {
        Some(c) => if c@.len() > 0 {
            head + "  "@ + command_summary(c@, MAX_COMMAND_SUMMARY_CHARS as nat)
        } else {
            head
        },
        None => head,
    }
}

proof fn lemma_words_nonempty(s: Seq<char>)
    ensures
        forall|i: int| 0 <= i < words(s).len() ==> #[trigger] words(s)[i].len() > 0,
        (words(s).len() == 0) <==> (forall|i: int| 0 <= i < s.len() ==> is_space(#[trigger] s[i])),
    decreases s.len(),
{
    if s.len() > 0 {
        let init = s.drop_last();
        lemma_words_nonempty(init);
        if !(forall|i: int| 0 <= i < s.len() ==> is_space(#[trigger] s[i])) {
            if is_space(s.last()) {
                let i = choose|i: int| 0 <= i < s.len() && !is_space(s[i]);
                assert(init[i] == s[i]);
            }
        } else {
            assert(is_space(s[s.len() - 1]));
            assert forall|i: int| 0 <= i < init.len() implies is_space(#[trigger] init[i]) by {
                assert(init[i] == s[i]);
            }
        }
        if !is_space(s.last()) && s.len() > 1 && !is_space(s[s.len() - 2]) {
            assert(!is_space(init[init.len() - 1]));
        }
    }
}

proof fn lemma_join_push(w: Seq<Seq<char>>, x: Seq<char>)
    ensures
        join_spaced(w.push(x)) == if w.len() == 0 {
            x
        } else {
            join_spaced(w) + seq![' '] + x
        },
{
    assert(w.push(x).drop_last() =~= w);
}

proof fn lemma_join_extend(w: Seq<Seq<char>>, c: char)
    requires
        w.len() > 0,
    ensures
        join_spaced(w.update(w.len() - 1, w.last().push(c))) == join_spaced(w).push(c),
{
    let u = w.update(w.len() - 1, w.last().push(c));
    if w.len() == 1 {
    } else {
        assert(u.drop_last() =~= w.drop_last());
    }
}

proof fn lemma_join_empty(w: Seq<Seq<char>>)
    requires
        forall|i: int| 0 <= i < w.len() ==> #[trigger] w[i].len() > 0,
    ensures
        (join_spaced(w).len() == 0) <==> (w.len() == 0),
    decreases w.len(),
{
    if w.len() > 1 {
        lemma_join_empty(w.drop_last());
    }
}

/// The command with its white space collapsed.
pub fn normalize_command(command: &str) -> (r: String)
    ensures
        r@ == normalized_command(command@),
{
    let n = command.unicode_len();
    let mut out = String::new();
    let mut in_word = false;
    for i in 0..n
        invariant
            n == command@.len(),
            out@ == join_spaced(words(command@.subrange(0, i as int))),
            in_word == (i > 0 && !is_space(command@[i - 1])),
    {
        let ghost pre = command@.subrange(0, i as int);
        let ghost next = command@.subrange(0, i + 1);
        assert(next.drop_last() =~= pre);
        proof {
            lemma_words_nonempty(pre);
            lemma_join_empty(words(pre));
        }
        let c = command.get_char(i);
        if is_space_exec(c) {
            in_word = false;
        } else {
            if in_word {
                proof {
                    assert(next[next.len() - 2] == command@[i - 1]);
                    assert(words(pre).len() > 0) by {
                        assert(!is_space(pre[i - 1]));
                    }
                    lemma_join_extend(words(pre), c);
                }
                push_char(&mut out, c);
            } else {
                if i > 0 {
                    assert(next[next.len() - 2] == command@[i - 1]);
                }
                proof {
                    lemma_join_push(words(pre), seq![c]);
                }
                if out.unicode_len() > 0 {
                    push_char(&mut out, ' ');
                }
                push_char(&mut out, c);
                assert(out@ =~= join_spaced(words(next)));
            }
            in_word = true;
        }
    }
    assert(command@.subrange(0, n as int) =~= command@);
    out
}

/// The command summary: collapsed white space, cut to `max_chars`
/// characters with "..." appended when longer.
pub fn summarize_command(command: &str, max_chars: usize) -> (r: String)
    ensures
        r@ == command_summary(command@, max_chars as nat),
{
    let normalized = normalize_command(command);
    let len = normalized.as_str().unicode_len();
    if len <= max_chars {
        return normalized;
    }
    let mut shortened = String::new();
    for i in 0..max_chars
        invariant
            max_chars < len == normalized@.len(),
            shortened@ == normalized@.subrange(0, i as int),
    {
        push_char(&mut shortened, normalized.as_str().get_char(i));
        assert(shortened@ =~= normalized@.subrange(0, i + 1));
    }
    push_str(&mut shortened, "...");
    shortened
}

/// The summary line of a process.
pub fn format_process_summary(proc_info: &ProcessInfo) -> (r: String)
    ensures
        r@ == process_summary(*proc_info),
{
    let mut head = String::new();
    proof {
        reveal_strlit("PID ");
    }
    push_str(&mut head, "PID ");
    let ghost before_pid = head@;
    push_signed_decimal(&mut head, proc_info.pid);
    let ghost digits = signed_decimal(proc_info.pid as int);
    let mut width = head.as_str().unicode_len() - 4;
    assert(head@ =~= before_pid + digits + Seq::new((width - digits.len()) as nat, |i: int| ' '));
    while width < 6
        invariant
            4 <= head@.len(),
            width == head@.len() - 4,
            digits.len() <= width <= 6 || (digits.len() >= 6 && width == digits.len()),
            head@ == before_pid + digits + Seq::new((width - digits.len()) as nat, |i: int| ' '),
            before_pid == "PID "@,
        decreases 6 - width,
    {
        push_char(&mut head, ' ');
        width = width + 1;
        assert(head@ =~= before_pid + digits + Seq::new((width - digits.len()) as nat, |i: int| ' '));
    }
    assert(head@ =~= "PID "@ + pad_right(digits, 6));
    push_char(&mut head, ' ');
    push_str(&mut head, proc_info.name.as_str());
    match &proc_info.command {
        Some(command) => {
            if command.as_str().unicode_len() > 0 {
                let summary = summarize_command(command.as_str(), MAX_COMMAND_SUMMARY_CHARS);
                push_str(&mut head, "  ");
                push_str(&mut head, summary.as_str());
            }
        },
        None => {},
    }
    head
}

} // verus!
