//! Records as they arrive from the line source, and the grammar that
//! recognises them in one line of text.
use crate::text::chars_of;
use vstd::prelude::*;
use vstd::string::*;

verus! {

/// How long the reading side rests after a pause line, in milliseconds.
pub const PAUSE_MILLIS: u64 = 1000;

/// One observation: an identifier, its payload and the time at which it
/// was seen, in milliseconds since the Unix epoch.
#[derive(Clone, Debug, PartialEq, Eq)]
pub struct Message {
    pub id: String,
    pub data: String,
    pub ts: i64,
}

/// The mathematical value of a [`Message`].
pub struct MessageView {
    pub id: Seq<char>,
    pub data: Seq<char>,
    pub ts: i64,
}

impl View for Message {
    type V = MessageView;

    open spec fn view(&self) -> MessageView {
        MessageView { id: self.id@, data: self.data@, ts: self.ts }
    }
}

impl Message {
    /// A record of `data` seen for `id` at `ts`.
    pub fn new(id: String, data: String, ts: i64) -> (m: Message)
        ensures
            m@ == (MessageView { id: id@, data: data@, ts }),
    {
        Message { id, data, ts }
    }
}

/// What the reading side does with one line.
#[derive(Clone, Debug, PartialEq, Eq)]
pub enum LineAction {
    /// The line holds a record: hand it on.
    Record(Message),
    /// The line is the pause signal: rest for so many milliseconds, hand
    /// on nothing.
    Pause(u64),
    /// The line holds nothing of interest.
    Skip,
}

/// The code points that separate tokens: those with the Unicode property
/// `White_Space`.
pub open spec fn is_space(c: char) -> bool {
    ||| ('\u{9}' <= c && c <= '\u{d}')
    ||| c == ' '
    ||| c == '\u{85}'
    ||| c == '\u{a0}'
    ||| c == '\u{1680}'
    ||| ('\u{2000}' <= c && c <= '\u{200a}')
    ||| c == '\u{2028}'
    ||| c == '\u{2029}'
    ||| c == '\u{202f}'
    ||| c == '\u{205f}'
    ||| c == '\u{3000}'
}

/// The number of code points before the first separator of `s`.
pub open spec fn word_len(s: Seq<char>) -> nat
    decreases s.len(),
{
    if s.len() == 0 || is_space(s[0]) {
        0
    } else {
        1 + word_len(s.drop_first())
    }
}

/// The tokens of `s`: its maximal runs of code points that are no
/// separators, from left to right.
pub open spec fn tokens(s: Seq<char>) -> Seq<Seq<char>>
    decreases s.len(),
{
    if s.len() == 0 {
        Seq::empty()
    } else if is_space(s[0]) {
        tokens(s.drop_first())
    } else {
        let n = word_len(s) as int;
        // a word that begins here has at least one code point and ends inside `s`
        if 0 < n <= s.len() {
            seq![s.take(n)] + tokens(s.skip(n))
        } else {
            Seq::empty()
        }
    }
}

/// The token that marks a line as a record.
pub open spec fn sentinel() -> Seq<char> {
    seq!['I', 'D', ':']
}

/// The line that asks the reading side to pause.
pub open spec fn pause_line() -> Seq<char> {
    seq!['s', 'l', 'e', 'e', 'p']
}

/// The identifier and the payload that `line` holds, if it is a record:
/// its first token is the sentinel, its second the identifier, its third
/// is passed over and its fourth is the payload.
pub open spec fn record_of(line: Seq<char>) -> Option<(Seq<char>, Seq<char>)> {
    let t = tokens(line);
    if t.len() >= 4 && t[0] == sentinel() {
        Some((t[1], t[3]))
    } else {
        None
    }
}

/// What reading `line` at `ts` gives: the record that the line holds,
/// stamped with `ts`, or nothing.
pub open spec fn parsed(line: Seq<char>, ts: i64) -> Option<MessageView> {
    match record_of(line) {
        Some((id, data)) => Some(MessageView { id, data, ts }),
        None => None,
    }
}

/// The texts that `spans` cut out of `s`.
pub open spec fn span_texts(s: Seq<char>, spans: Seq<(usize, usize)>) -> Seq<Seq<char>> {
    Seq::new(spans.len(), |i: int| s.subrange(spans[i].0 as int, spans[i].1 as int))
}

/// Whether every span of `spans` lies inside a text of `len` code points.
pub open spec fn spans_within(spans: Seq<(usize, usize)>, len: nat) -> bool {
    forall|i: int| 0 <= i < spans.len() ==> (#[trigger] spans[i]).0 <= spans[i].1 <= len
}

/// A word never runs past the end of its text.
pub proof fn lemma_word_len_bound(s: Seq<char>)
    ensures
        word_len(s) <= s.len(),
        s.len() > 0 && !is_space(s[0]) ==> word_len(s) > 0,
    decreases s.len(),
{
    if s.len() > 0 && !is_space(s[0]) {
        lemma_word_len_bound(s.drop_first());
    }
}

/// Whether `c` separates tokens.
pub fn is_separator(c: char) -> (r: bool)
    ensures
        r == is_space(c),
{
    ('\u{9}' <= c && c <= '\u{d}') || c == ' ' || c == '\u{85}' || c == '\u{a0}' || c
        == '\u{1680}' || ('\u{2000}' <= c && c <= '\u{200a}') || c == '\u{2028}' || c
        == '\u{2029}' || c == '\u{202f}' || c == '\u{205f}' || c == '\u{3000}'
}

/// Where the tokens of `s` begin and end, from left to right.
pub fn token_spans(s: &Vec<char>) -> (spans: Vec<(usize, usize)>)
    ensures
        span_texts(s@, spans@) == tokens(s@),
        spans_within(spans@, s@.len()),
{
    let n: usize = s.len();
    let mut spans: Vec<(usize, usize)> = Vec::new();
    let mut pos: usize = 0;
    proof {
        assert(s@.skip(0) =~= s@);
        assert(span_texts(s@, spans@) + tokens(s@.skip(0)) =~= tokens(s@));
    }
    while pos < n
        invariant
            n == s@.len(),
            pos <= n,
            spans_within(spans@, s@.len()),
            span_texts(s@, spans@) + tokens(s@.skip(pos as int)) == tokens(s@),
        decreases n - pos,
    {
        let ghost rest = s@.skip(pos as int);
        if is_separator(s[pos]) {
            proof {
                assert(rest.drop_first() =~= s@.skip(pos as int + 1));
            }
            pos += 1;
        } else {
            let start: usize = pos;
            let mut end: usize = pos;
            while end < n && !is_separator(s[end])
                invariant
                    n == s@.len(),
                    start <= end <= n,
                    word_len(s@.skip(start as int)) == (end - start) + word_len(
                        s@.skip(end as int),
                    ),
                decreases n - end,
            {
                proof {
                    assert(s@.skip(end as int).drop_first() =~= s@.skip(end as int + 1));
                }
                end += 1;
            }
            proof {
                lemma_word_len_bound(rest);
                assert(word_len(s@.skip(end as int)) == 0);
                assert(rest.take(end - start) =~= s@.subrange(start as int, end as int));
                assert(rest.skip(end - start) =~= s@.skip(end as int));
                assert(span_texts(s@, spans@.push((start, end))) =~= span_texts(s@, spans@)
                    + seq![s@.subrange(start as int, end as int)]);
                assert(span_texts(s@, spans@.push((start, end))) + tokens(s@.skip(end as int))
                    =~= span_texts(s@, spans@) + tokens(rest));
            }
            spans.push((start, end));
            pos = end;
        }
    }
    proof {
        assert(s@.skip(n as int) =~= Seq::<char>::empty());
        assert(span_texts(s@, spans@) + tokens(s@.skip(n as int)) =~= span_texts(s@, spans@));
    }
    spans
}

/// Whether the code points of `s` from `from` to `to` are the sentinel.
fn is_sentinel(s: &Vec<char>, from: usize, to: usize) -> (r: bool)
    requires
        from <= to <= s@.len(),
    ensures
        r == (s@.subrange(from as int, to as int) == sentinel()),
{
    let ghost t = s@.subrange(from as int, to as int);
    proof {
        assert(sentinel().len() == 3);
        assert(sentinel()[0] == 'I' && sentinel()[1] == 'D' && sentinel()[2] == ':');
    }
    if to - from == 3 {
        let r = s[from] == 'I' && s[from + 1] == 'D' && s[from + 2] == ':';
        proof {
            assert(t[0] == s@[from as int] && t[1] == s@[from + 1] && t[2] == s@[from + 2]);
            if r {
                assert(t =~= sentinel());
            }
        }
        r
    } else {
        false
    }
}

/// Whether `s` is the pause line.
fn is_pause(s: &Vec<char>) -> (r: bool)
    ensures
        r == (s@ == pause_line()),
{
    proof {
        assert(pause_line().len() == 5);
        assert(pause_line()[0] == 's' && pause_line()[1] == 'l' && pause_line()[2] == 'e'
            && pause_line()[3] == 'e' && pause_line()[4] == 'p');
    }
    if s.len() == 5 {
        let r = s[0] == 's' && s[1] == 'l' && s[2] == 'e' && s[3] == 'e' && s[4] == 'p';
        proof {
            if r {
                assert(s@ =~= pause_line());
            }
        }
        r
    } else {
        false
    }
}

/// Reads one line: the record that it holds, stamped with `ts`, or `None`
/// where the line is no record.
pub fn parse_line(line: &str, ts: i64) -> (r: Option<Message>)
    ensures
        match r {
            Some(m) => parsed(line@, ts) == Some(m@),
            None => parsed(line@, ts) is None,
        },
{
    let chars = chars_of(line);
    let spans = token_spans(&chars);
    proof {
        assert(span_texts(chars@, spans@).len() == spans@.len());
    }
    if spans.len() < 4 {
        return None;
    }
    let (s0, e0) = spans[0];
    let (s1, e1) = spans[1];
    let (s3, e3) = spans[3];
    proof {
        assert(span_texts(chars@, spans@)[0] == chars@.subrange(s0 as int, e0 as int));
        assert(span_texts(chars@, spans@)[1] == chars@.subrange(s1 as int, e1 as int));
        assert(span_texts(chars@, spans@)[3] == chars@.subrange(s3 as int, e3 as int));
    }
    if !is_sentinel(&chars, s0, e0) {
        return None;
    }
    let id = line.substring_char(s1, e1).to_owned();
    let data = line.substring_char(s3, e3).to_owned();
    Some(Message::new(id, data, ts))
}

/// Decides what the reading side does with `line`, seen at `ts`: pause for
/// [`PAUSE_MILLIS`] on the pause line, hand on the record that the line
/// holds, or pass over it.
pub fn classify_line(line: &str, ts: i64) -> (a: LineAction)
    ensures
        line@ == pause_line() ==> a == LineAction::Pause(PAUSE_MILLIS),
        line@ != pause_line() ==> match parsed(line@, ts) {
            Some(m) => a is Record && a->Record_0@ == m,
            None => a is Skip,
        },
{
    let chars = chars_of(line);
    if is_pause(&chars) {
        return LineAction::Pause(PAUSE_MILLIS);
    }
    match parse_line(line, ts) {
        Some(m) => LineAction::Record(m),
        None => LineAction::Skip,
    }
}

/// The pause line holds no record.
pub proof fn lemma_pause_is_no_record()
    ensures
        record_of(pause_line()) is None,
{
    let s = pause_line();
    lemma_tokens_len_bound(s);
}

/// A text has at most as many tokens as code points.
pub proof fn lemma_tokens_len_bound(s: Seq<char>)
    ensures
        tokens(s).len() <= s.len(),
    decreases s.len(),
{
    if s.len() == 0 {
    } else if is_space(s[0]) {
        lemma_tokens_len_bound(s.drop_first());
    } else {
        lemma_word_len_bound(s);
        lemma_tokens_len_bound(s.skip(word_len(s) as int));
    }
}

} // verus!
