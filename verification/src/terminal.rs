//! Helpers for the embedded terminal: seeding a session prompt from a task,
//! splitting the configured run command into argv, and the scrollback buffer
//! that lets a session be detached and reattached.

use vstd::prelude::*;

use std::collections::VecDeque;

use vstd::string::StringExecFns;

use crate::taskmd::model::Task;
use crate::text::{chars_of, is_whitespace, is_ws, string_of, texts, trim, trim_chars};

verus! {

/// The last `n` elements of `s` (all of `s` when it is shorter).
pub open spec fn tail<A>(s: Seq<A>, n: int) -> Seq<A> {
    if s.len() <= n {
        s
    } else {
        s.skip(s.len() - n)
    }
}

/// A byte buffer holding the most recent terminal output, at most `cap`
/// bytes, so a client that (re)attaches can replay what it missed. When full,
/// the oldest bytes are dropped.
pub struct Scrollback {
    buf: VecDeque<u8>,
    cap: usize,
}

impl Scrollback {
    #[verifier::type_invariant]
    spec fn within_cap(self) -> bool {
        self.buf@.len() <= self.cap
    }

    /// The retained bytes, oldest first.
    pub closed spec fn view(self) -> Seq<u8> {
        self.buf@
    }

    /// The most bytes this buffer keeps.
    pub closed spec fn capacity(self) -> nat {
        self.cap as nat
    }

    /// An empty buffer keeping at most `cap` bytes (0 keeps nothing).
    pub fn new(cap: usize) -> (r: Scrollback)
        ensures
            r.view() == Seq::<u8>::empty(),
            r.capacity() == cap,
    {
        Scrollback { buf: VecDeque::new(), cap }
    }

    /// Append output, dropping the oldest bytes to stay within the cap; of a
    /// write larger than the cap only its last `cap` bytes are kept.
    pub fn push(&mut self, bytes: &[u8])
        ensures
            final(self).view() == tail(old(self).view() + bytes@, old(self).capacity() as int),
            final(self).capacity() == old(self).capacity(),
    {
        proof {
            use_type_invariant(&*self);
        }
        if self.cap == 0 {
            assert(tail(self.buf@ + bytes@, 0) =~= Seq::<u8>::empty());
            assert(self.buf@ =~= Seq::<u8>::empty());
            return;
        }
        let cap = self.cap;
        let start: usize = if bytes.len() > cap {
            bytes.len() - cap
        } else {
            0
        };
        let ghost old_buf = self.buf@;
        let mut buf = VecDeque::new();
        std::mem::swap(&mut buf, &mut self.buf);
        let mut i = start;
        while i < bytes.len()
            invariant
                start <= i <= bytes.len(),
                buf@ =~= old_buf + bytes@.subrange(start as int, i as int),
            decreases bytes.len() - i,
        {
            buf.push_back(bytes[i]);
            i += 1;
        }
        let ghost whole = old_buf + bytes@;
        assert(tail(whole, cap as int) == tail(buf@, cap as int)) by {
            if start > 0 {
                assert(tail(whole, cap as int) =~= bytes@.skip(start as int));
                assert(buf@.len() >= cap);
                assert(tail(buf@, cap as int) =~= bytes@.skip(start as int));
            } else {
                assert(buf@ =~= whole);
            }
        }
        while buf.len() > cap
            invariant
                tail(whole, cap as int) == tail(buf@, cap as int),
            decreases buf.len(),
        {
            let ghost before = buf@;
            let _ = buf.pop_front();
            assert(tail(buf@, cap as int) =~= tail(before, cap as int));
        }
        assert(tail(buf@, cap as int) =~= buf@);
        self.buf = buf;
    }

    /// A copy of the retained bytes, oldest first.
    pub fn snapshot(&self) -> (r: Vec<u8>)
        ensures
            r@ == self.view(),
    {
        let mut out: Vec<u8> = Vec::new();
        let mut i: usize = 0;
        while i < self.buf.len()
            invariant
                i <= self.buf@.len(),
                out@ =~= self.buf@.take(i as int),
            decreases self.buf@.len() - i,
        {
            out.push(self.buf[i]);
            i += 1;
        }
        assert(self.buf@.take(self.buf@.len() as int) =~= self.buf@);
        out
    }

    /// Retained byte count.
    pub fn len(&self) -> (r: usize)
        ensures
            r == self.view().len(),
            r <= self.capacity(),
    {
        proof {
            use_type_invariant(self);
        }
        self.buf.len()
    }

    /// Whether anything is retained.
    pub fn is_empty(&self) -> (r: bool)
        ensures
            r == (self.view().len() == 0),
    {
        self.buf.len() == 0
    }
}

/// Pushing in pieces keeps the same bytes as pushing everything at once: the
/// buffer always holds the last `cap` bytes of all output so far.
pub proof fn law_scrollback_tail(a: Seq<u8>, b: Seq<u8>, cap: int)
    requires
        0 <= cap,
    ensures
        tail(tail(a, cap) + b, cap) == tail(a + b, cap),
{
    let x = tail(a, cap) + b;
    let y = a + b;
    if a.len() <= cap {
        assert(x =~= y);
    } else if b.len() >= cap {
        assert(tail(x, cap) =~= b.skip(b.len() - cap));
        assert(tail(y, cap) =~= b.skip(b.len() - cap));
    } else {
        assert(tail(x, cap) =~= tail(y, cap));
    }
}

/// The prompt seeded into a run session: id and title, then the trimmed
/// body when it has any text.
pub open spec fn seed_prompt_spec(id: Seq<char>, title: Seq<char>, body: Seq<char>) -> Seq<char> {
    let head = "Work on task "@ + id + ": "@ + title;
    if trim(body).len() == 0 {
        head
    } else {
        head + "\n\n"@ + trim(body)
    }
}

/// The initial prompt for a run session from a task (not submitted; the
/// user reviews it first).
pub fn seed_prompt(task: &Task) -> (r: String)
    ensures
        r@ == seed_prompt_spec(task.id_spec(), task.title_spec(), task.body@),
{
    let mut prompt = "Work on task ".to_owned();
    prompt.append(task.id().as_str());
    prompt.append(": ");
    prompt.append(task.title().as_str());
    let bc = chars_of(task.body.as_str());
    let b = trim_chars(&bc);
    if b.len() > 0 {
        prompt.append("\n\n");
        prompt.append(string_of(&b).as_str());
    }
    prompt
}

/// Command splitting state: tokens so far, the token being read, whether a
/// token is open, and the quote character that is open.
pub struct SplitState {
    pub argv: Seq<Seq<char>>,
    pub cur: Seq<char>,
    pub in_token: bool,
    pub quote: Option<char>,
}

/// Read one character: inside quotes everything but the closing quote is
/// literal; outside, a quote opens a token, whitespace ends one, anything
/// else extends it.
pub open spec fn split_step(st: SplitState, ch: char) -> SplitState {
    match st.quote {
        Some(q) => if ch == q {
            SplitState { quote: None, ..st }
        } else {
            SplitState { cur: st.cur.push(ch), ..st }
        },
        None => if ch == '\'' || ch == '"' {
            SplitState { quote: Some(ch), in_token: true, ..st }
        } else if is_ws(ch) {
            if st.in_token {
                SplitState { argv: st.argv.push(st.cur), cur: Seq::empty(), in_token: false, ..st }
            } else {
                st
            }
        } else {
            SplitState { cur: st.cur.push(ch), in_token: true, ..st }
        },
    }
}

pub open spec fn split_run(s: Seq<char>) -> SplitState
    decreases s.len(),
{
    if s.len() == 0 {
        SplitState { argv: Seq::empty(), cur: Seq::empty(), in_token: false, quote: None }
    } else {
        split_step(split_run(s.drop_last()), s.last())
    }
}

/// The argv a command string splits into.
pub open spec fn parse_command_spec(s: Seq<char>) -> Seq<Seq<char>> {
    let st = split_run(s);
    if st.in_token {
        st.argv.push(st.cur)
    } else {
        st.argv
    }
}

/// Split a command string into argv with minimal shell-like quoting:
/// whitespace separates tokens; single or double quotes group and are
/// stripped; a backslash is kept literally. Empty input gives no argv.
pub fn parse_command(cmd: &str) -> (r: Vec<String>)
    ensures
        texts(r@) == parse_command_spec(cmd@),
{
    let c = chars_of(cmd);
    let mut argv: Vec<String> = Vec::new();
    let mut cur: Vec<char> = Vec::new();
    let mut in_token = false;
    let mut quote: Option<char> = None;
    let mut i: usize = 0;
    assert(c@.take(0) =~= Seq::<char>::empty());
    assert(texts(argv@) =~= Seq::<Seq<char>>::empty());
    while i < c.len()
        invariant
            i <= c.len(),
            split_run(c@.take(i as int)) == (SplitState { argv: texts(argv@), cur: cur@, in_token, quote }),
        decreases c.len() - i,
    {
        assert(c@.take(i + 1).drop_last() =~= c@.take(i as int));
        let ch = c[i];
        match quote {
            Some(q) => {
                if ch == q {
                    quote = None;
                } else {
                    cur.push(ch);
                }
            },
            None => {
                if ch == '\'' || ch == '"' {
                    quote = Some(ch);
                    in_token = true;
                } else if is_whitespace(ch) {
                    if in_token {
                        let tok = string_of(&cur);
                        argv.push(tok);
                        assert(texts(argv@) =~= split_run(c@.take(i as int)).argv.push(cur@));
                        cur = Vec::new();
                        in_token = false;
                    }
                } else {
                    cur.push(ch);
                    in_token = true;
                }
            },
        }
        i += 1;
    }
    assert(c@.take(c.len() as int) =~= c@);
    if in_token {
        let tok = string_of(&cur);
        argv.push(tok);
        assert(texts(argv@) =~= split_run(c@).argv.push(cur@));
    }
    argv
}

/// Whether an argument is a prompt placeholder of an agent command.
pub open spec fn is_placeholder(a: Seq<char>) -> bool {
    a == "{prompt}"@ || a == "{prompt_file}"@
}

/// The first `n` arguments without the prompt placeholders.
pub open spec fn launch_argv_spec(cmd: Seq<Seq<char>>, n: int) -> Seq<Seq<char>>
    decreases n,
{
    if n <= 0 {
        Seq::empty()
    } else {
        let prev = launch_argv_spec(cmd, n - 1);
        if is_placeholder(cmd[n - 1]) {
            prev
        } else {
            prev.push(cmd[n - 1])
        }
    }
}

/// The argv an interactive terminal session launches an agent command
/// with: its prompt placeholders dropped, since the prompt is typed in the
/// session itself.
pub fn launch_argv(command: &Vec<String>) -> (r: Vec<String>)
    ensures
        texts(r@) == launch_argv_spec(texts(command@), command.len() as int),
{
    let mut out: Vec<String> = Vec::new();
    let mut i: usize = 0;
    while i < command.len()
        invariant
            i <= command.len(),
            texts(out@) == launch_argv_spec(texts(command@), i as int),
        decreases command.len() - i,
    {
        let a = command[i].as_str();
        if !(crate::text::str_eq(a, "{prompt}") || crate::text::str_eq(a, "{prompt_file}")) {
            let ghost before = out@;
            out.push(command[i].clone());
            proof {
                assert(out@ =~= before.push(command@[i as int]));
                assert(texts(out@) =~= texts(before).push(command@[i as int]@));
            }
        }
        i += 1;
    }
    out
}

/// `str::split_whitespace`: the maximal runs of non-whitespace characters,
/// in order. A non-whitespace character after whitespace (or at the start)
/// opens a word; one after another extends the last word.
pub open spec fn whitespace_words(s: Seq<char>) -> Seq<Seq<char>>
    decreases s.len(),
{
    if s.len() == 0 {
        Seq::empty()
    } else {
        let p = s.drop_last();
        let w = whitespace_words(p);
        let c = s.last();
        if is_ws(c) {
            w
        } else if p.len() > 0 && !is_ws(p.last()) && w.len() > 0 {
            w.drop_last().push(w.last().push(c))
        } else {
            w.push(seq![c])
        }
    }
}

proof fn lemma_split_plain(s: Seq<char>)
    requires
        forall|i: int| 0 <= i < s.len() ==> #[trigger] s[i] != '\'' && s[i] != '"',
    ensures
        split_run(s).quote is None,
        split_run(s).in_token == (s.len() > 0 && !is_ws(s.last())),
        !split_run(s).in_token ==> split_run(s).cur.len() == 0 && split_run(s).argv == whitespace_words(s),
        split_run(s).in_token ==> split_run(s).argv.push(split_run(s).cur) == whitespace_words(s),
    decreases s.len(),
{
    if s.len() > 0 {
        let p = s.drop_last();
        assert forall|i: int| 0 <= i < p.len() implies #[trigger] p[i] != '\'' && p[i] != '"' by {
            assert(p[i] == s[i]);
        }
        lemma_split_plain(p);
        let st0 = split_run(p);
        let c = s.last();
        assert(c == s[s.len() - 1]);
        let w = whitespace_words(p);
        if !is_ws(c) && st0.in_token {
            assert(w.len() > 0);
            assert(w.drop_last() =~= st0.argv);
            assert(w.last() == st0.cur);
            assert(split_run(s).argv.push(split_run(s).cur) =~= w.drop_last().push(w.last().push(c)));
        } else if !is_ws(c) {
            assert(st0.cur.push(c) =~= seq![c]);
            assert(split_run(s).argv.push(split_run(s).cur) =~= w.push(seq![c]));
        }
    }
}

/// Without quotes, splitting a command is splitting on whitespace.
pub proof fn law_split_plain_is_whitespace_split(s: Seq<char>)
    requires
        forall|i: int| 0 <= i < s.len() ==> #[trigger] s[i] != '\'' && s[i] != '"',
    ensures
        parse_command_spec(s) == whitespace_words(s),
{
    lemma_split_plain(s);
}

} // verus!
