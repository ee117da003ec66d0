//! The generator's view of existing tasks, and rendering of new ones.
//!
//! The generator only ever adds task files and reads completion state. Every
//! task it writes carries a `recurring:` marker, which the next run reads back.

use vstd::prelude::*;

use vstd::string::StringExecFns;

use crate::date::{Date, date_parts, lenient_date, parse_lenient_date, spec_format_ymd};
use crate::rule::Rule;
use crate::taskmd::model::opening_fence;
use crate::text::{chars_of, opt_text, parse_u32, parse_unsigned, rtrim_char, string_of, str_eq, texts, trim, trim_chars};

verus! {

/// The slice of an existing task's frontmatter the generator reads.
#[derive(Debug, Clone, PartialEq)]
pub struct ExistingTask {
    /// Numeric id from the filename prefix (`007-foo.md` is 7).
    pub num_id: u32,
    pub status: String,
    /// The `recurring:` marker, if any.
    pub recurring: Option<String>,
    pub completed_at: Option<Date>,
    pub cancelled_at: Option<Date>,
    pub created_at: Option<Date>,
}

impl Default for ExistingTask {
    fn default() -> (r: ExistingTask)
        ensures
            r.num_id == 0,
            r.status@ == Seq::<char>::empty(),
            r.recurring is None,
            r.completed_at is None,
            r.cancelled_at is None,
            r.created_at is None,
    {
        ExistingTask {
            num_id: 0,
            status: String::new(),
            recurring: None,
            completed_at: None,
            cancelled_at: None,
            created_at: None,
        }
    }
}

impl ExistingTask {
    /// Open unless completed or cancelled.
    pub open spec fn open_spec(self) -> bool {
        !(self.status@ == "completed"@ || self.status@ == "cancelled"@)
    }

    /// The date the occurrence concluded: completed, else cancelled, else created.
    pub open spec fn occurrence_spec(self) -> Option<Date> {
        match self.completed_at {
            Some(d) => Some(d),
            None => match self.cancelled_at {
                Some(d) => Some(d),
                None => self.created_at,
            },
        }
    }

    /// Dates it carries are valid dates.
    pub open spec fn wf(self) -> bool {
        &&& (self.completed_at matches Some(d) ==> d.wf())
        &&& (self.cancelled_at matches Some(d) ==> d.wf())
        &&& (self.created_at matches Some(d) ==> d.wf())
    }

    /// A task is open unless it reached a terminal status.
    pub fn is_open(&self) -> (r: bool)
        ensures
            r == self.open_spec(),
    {
        !(str_eq(self.status.as_str(), "completed") || str_eq(self.status.as_str(), "cancelled"))
    }

    /// When this occurrence concluded, for interval maths: `completed_at`,
    /// else `cancelled_at` (cancelling skips an occurrence but keeps the
    /// cadence), else `created_at` (so an undated terminal task never looks
    /// like "never ran").
    pub fn occurrence_date(&self) -> (r: Option<Date>)
        ensures
            r == self.occurrence_spec(),
    {
        match self.completed_at {
            Some(d) => Some(d),
            None => match self.cancelled_at {
                Some(d) => Some(d),
                None => self.created_at,
            },
        }
    }
}

/// The frontmatter fields the generator reads, as plain strings.
#[derive(Debug, Clone, Default, PartialEq)]
pub struct Frontmatter {
    pub status: Option<String>,
    pub recurring: Option<String>,
    pub completed_at: Option<String>,
    pub cancelled_at: Option<String>,
    pub created_at: Option<String>,
}

/// Position of the first `\n---` in `s`.
pub open spec fn closing_fence_at(s: Seq<char>) -> Option<int> {
    if exists|i: int| 0 <= i && i + 4 <= s.len() && #[trigger] s.subrange(i, i + 4) == "\n---"@ {
        Some(
            choose|i: int|
                0 <= i && i + 4 <= s.len() && #[trigger] s.subrange(i, i + 4) == "\n---"@ && forall|
                    j: int,
                |
                    0 <= j < i ==> #[trigger] s.subrange(j, j + 4) != "\n---"@,
        )
    } else {
        None
    }
}

/// The frontmatter block: after an opening `---` line (LF or CRLF) up to the
/// first `\n---`.
pub open spec fn frontmatter_block_spec(c: Seq<char>) -> Option<Seq<char>> {
    match opening_fence(c) {
        Some(k) => match closing_fence_at(c.skip(k)) {
            Some(e) => Some(c.skip(k).take(e)),
            None => None,
        },
        None => None,
    }
}

fn at_fence(c: &Vec<char>, i: usize) -> (r: bool)
    requires
        i + 4 <= c.len(),
    ensures
        r == (c@.subrange(i as int, i + 4) == "\n---"@),
{
    proof {
        reveal_strlit("\n---");
    }
    let r = c[i] == '\n' && c[i + 1] == '-' && c[i + 2] == '-' && c[i + 3] == '-';
    proof {
        let t = c@.subrange(i as int, i + 4);
        if r {
            assert(t =~= "\n---"@);
        } else if t == "\n---"@ {
            assert(t[0] == c@[i as int] && t[1] == c@[i + 1] && t[2] == c@[i + 2] && t[3] == c@[i + 3]);
        }
    }
    r
}

/// Extract the YAML frontmatter block between the leading `---` fences.
/// Tolerates CRLF: the closing fence is found as `\n---` whether or not the
/// line before ended in `\r`.
pub fn frontmatter_block(content: &str) -> (r: Option<&str>)
    ensures
        opt_str_view(r) == frontmatter_block_spec(content@),
{
    let c = chars_of(content);
    let n = c.len();
    proof {
        reveal_strlit("---\r\n");
        reveal_strlit("---\n");
    }
    let k: usize = if n >= 5 && c[0] == '-' && c[1] == '-' && c[2] == '-' && c[3] == '\r' && c[4] == '\n' {
        assert(c@.take(5) =~= "---\r\n"@);
        5
    } else if n >= 4 && c[0] == '-' && c[1] == '-' && c[2] == '-' && c[3] == '\n' {
        assert(c@.take(4) =~= "---\n"@);
        proof {
            if n >= 5 && c@.take(5) == "---\r\n"@ {
                assert(c@.take(5)[3] == c@[3]);
            }
        }
        4
    } else {
        proof {
            if n >= 5 && c@.take(5) == "---\r\n"@ {
                assert(c@.take(5)[0] == c@[0] && c@.take(5)[1] == c@[1] && c@.take(5)[2] == c@[2]
                    && c@.take(5)[3] == c@[3] && c@.take(5)[4] == c@[4]);
            }
            if n >= 4 && c@.take(4) == "---\n"@ {
                assert(c@.take(4)[0] == c@[0] && c@.take(4)[1] == c@[1] && c@.take(4)[2] == c@[2]
                    && c@.take(4)[3] == c@[3]);
            }
        }
        return None;
    };
    let ghost rest = c@.skip(k as int);
    assert(opening_fence(c@) == Some(k as int));
    let mut i: usize = k;
    while n >= 4 && i <= n - 4
        invariant
            k <= i <= n,
            opening_fence(c@) == Some(k as int),
            n == c.len(),
            c@ == content@,
            rest == c@.skip(k as int),
            forall|j: int| 0 <= j < i - k ==> #[trigger] rest.subrange(j, j + 4) != "\n---"@,
        decreases n - i,
    {
        assert(rest.subrange(i - k, i - k + 4) =~= c@.subrange(i as int, i + 4));
        if at_fence(&c, i) {
            proof {
                let e = (i - k) as int;
                assert(rest.subrange(e, e + 4) == "\n---"@);
                let x = choose|x: int|
                    0 <= x && x + 4 <= rest.len() && #[trigger] rest.subrange(x, x + 4) == "\n---"@
                        && forall|j: int| 0 <= j < x ==> #[trigger] rest.subrange(j, j + 4) != "\n---"@;
                if x < e {
                } else if x > e {
                    assert(rest.subrange(e, e + 4) != "\n---"@);
                }
                assert(rest.take(e) =~= content@.subrange(k as int, i as int));
            }
            return Some(content.substring_char(k, i));
        }
        i += 1;
    }
    proof {
        assert forall|j: int| 0 <= j && j + 4 <= rest.len() implies #[trigger] rest.subrange(j, j + 4) != "\n---"@ by {
            assert(j < i - k);
        }
        assert(closing_fence_at(rest) is None);
    }
    None
}

/// The text of an optional string slice.
pub open spec fn opt_str_view(o: Option<&str>) -> Option<Seq<char>> {
    match o {
        Some(s) => Some(s@),
        None => None,
    }
}

/// The optional lenient date a raw text holds.
pub open spec fn raw_date(raw: Option<String>) -> Option<(int, int, int)> {
    match raw {
        Some(s) => lenient_date(s@),
        None => None,
    }
}

fn parse_date(raw: &Option<String>) -> (r: Option<Date>)
    ensures
        date_parts(r) == raw_date(*raw),
        r matches Some(d) ==> d.wf(),
{
    match raw {
        Some(s) => parse_lenient_date(s.as_str()),
        None => None,
    }
}

/// Build the generator's view of a task from its filename id and the
/// frontmatter fields read from it (`None` when the file has no parseable
/// frontmatter, so its id still counts toward the next id).
pub fn parse_task(num_id: u32, fm: Option<Frontmatter>) -> (r: ExistingTask)
    ensures
        r.num_id == num_id,
        r.wf(),
        match fm {
            None => r.status@ == Seq::<char>::empty() && r.recurring is None
                && r.completed_at is None && r.cancelled_at is None && r.created_at is None,
            Some(f) => r.status@ == (match f.status {
                Some(s) => s@,
                None => Seq::<char>::empty(),
            }) && opt_text(r.recurring) == opt_text(f.recurring)
                && date_parts(r.completed_at) == raw_date(f.completed_at)
                && date_parts(r.cancelled_at) == raw_date(f.cancelled_at)
                && date_parts(r.created_at) == raw_date(f.created_at),
        },
{
    match fm {
        None => ExistingTask {
            num_id,
            status: String::new(),
            recurring: None,
            completed_at: None,
            cancelled_at: None,
            created_at: None,
        },
        Some(f) => {
            let completed_at = parse_date(&f.completed_at);
            let cancelled_at = parse_date(&f.cancelled_at);
            let created_at = parse_date(&f.created_at);
            let status = match f.status {
                Some(s) => s,
                None => String::new(),
            };
            ExistingTask { num_id, status, recurring: f.recurring, completed_at, cancelled_at, created_at }
        },
    }
}

/// The id a task filename carries: `NNN-slug.md` gives NNN. Files that do
/// not end in `.md` or lack a numeric prefix carry none.
pub open spec fn file_id_spec(name: Seq<char>) -> Option<int> {
    if name.len() >= 3 && name.skip(name.len() - 3) == ".md"@ {
        let prefix = match first_dash(name) {
            Some(i) => name.take(i),
            None => name,
        };
        parse_unsigned(prefix, u32::MAX as int)
    } else {
        None
    }
}

/// Index of the first `-` in `s`.
pub open spec fn first_dash(s: Seq<char>) -> Option<int> {
    if exists|i: int| 0 <= i < s.len() && s[i] == '-' {
        Some(choose|i: int| 0 <= i < s.len() && s[i] == '-' && forall|j: int| 0 <= j < i ==> s[j] != '-')
    } else {
        None
    }
}

/// The numeric id of a task file name (see [`file_id_spec`]).
pub fn file_num_id(name: &str) -> (r: Option<u32>)
    ensures
        match file_id_spec(name@) {
            Some(v) => r == Some(v as u32),
            None => r is None,
        },
{
    let c = chars_of(name);
    let n = c.len();
    proof {
        reveal_strlit(".md");
    }
    if !(n >= 3 && c[n - 3] == '.' && c[n - 2] == 'm' && c[n - 1] == 'd') {
        proof {
            if n >= 3 && c@.skip(n - 3) == ".md"@ {
                assert(c@.skip(n - 3)[0] == c@[n - 3] && c@.skip(n - 3)[1] == c@[n - 2] && c@.skip(n - 3)[2] == c@[n - 1]);
            }
        }
        return None;
    }
    assert(c@.skip(n - 3) =~= ".md"@);
    let mut i: usize = 0;
    while i < n && c[i] != '-'
        invariant
            i <= n,
            n == c.len(),
            forall|j: int| 0 <= j < i ==> c@[j] != '-',
        decreases n - i,
    {
        i += 1;
    }
    let mut prefix: Vec<char> = Vec::new();
    let mut j: usize = 0;
    while j < i
        invariant
            j <= i,
            i <= n,
            n == c.len(),
            prefix@ =~= c@.take(j as int),
        decreases i - j,
    {
        prefix.push(c[j]);
        j += 1;
    }
    proof {
        if i < n {
            let x = choose|x: int| 0 <= x < c@.len() && c@[x] == '-' && forall|y: int| 0 <= y < x ==> c@[y] != '-';
            assert(c@[i as int] == '-');
            if x < i {
            } else if x > i {
                assert(c@[i as int] != '-');
            }
            assert(first_dash(name@) == Some(i as int));
        } else {
            assert(first_dash(name@) is None);
            assert(c@.take(n as int) =~= c@);
        }
    }
    parse_u32(&prefix)
}

/// The largest id among tasks, 0 for none.
pub open spec fn max_id(ts: Seq<ExistingTask>) -> int
    decreases ts.len(),
{
    if ts.len() == 0 {
        0
    } else {
        let m = max_id(ts.drop_last());
        if ts.last().num_id > m {
            ts.last().num_id as int
        } else {
            m
        }
    }
}

/// Next numeric id, one past the highest existing one (1 for none).
pub fn next_id(existing: &[ExistingTask]) -> (r: u32)
    requires
        max_id(existing@) < u32::MAX,
    ensures
        r as int == max_id(existing@) + 1,
{
    let mut m: u32 = 0;
    let mut i: usize = 0;
    while i < existing.len()
        invariant
            i <= existing.len(),
            m as int == max_id(existing@.take(i as int)),
        decreases existing.len() - i,
    {
        assert(existing@.take(i + 1).drop_last() =~= existing@.take(i as int));
        if existing[i].num_id > m {
            m = existing[i].num_id;
        }
        i += 1;
    }
    assert(existing@.take(existing.len() as int) =~= existing@);
    m + 1
}

/// Name for what `str::to_lowercase` gives for a text (Unicode lowercase).
pub uninterp spec fn spec_to_lowercase(s: Seq<char>) -> Seq<char>;

pub open spec fn is_ascii_char(c: char) -> bool {
    (c as u32) < 128
}

pub open spec fn ascii_lower(c: char) -> char {
    if 'A' <= c && c <= 'Z' {
        ((c as u32) + 32) as char
    } else {
        c
    }
}

/// `str::to_lowercase`; on ASCII text it lowers `A`-`Z` one for one, and no
/// ASCII capital letter is left in what it returns.
#[verifier::external_body]
pub(crate) fn to_lowercase(s: &str) -> (r: String)
    ensures
        r@ == spec_to_lowercase(s@),
        forall|i: int| 0 <= i < r@.len() ==> !('A' <= #[trigger] r@[i] && r@[i] <= 'Z'),
        (forall|i: int| 0 <= i < s@.len() ==> is_ascii_char(#[trigger] s@[i])) ==> r@ == s@.map_values(
            |c: char| ascii_lower(c),
        ),
{
    s.to_lowercase()
}

pub open spec fn is_ascii_alnum(c: char) -> bool {
    ('a' <= c && c <= 'z') || ('A' <= c && c <= 'Z') || ('0' <= c && c <= '9')
}

/// Slug state after reading `l`: the slug so far and whether it ends in a
/// dash (true at the start, so leading dashes never appear).
pub open spec fn slug_state(l: Seq<char>) -> (Seq<char>, bool)
    decreases l.len(),
{
    if l.len() == 0 {
        (Seq::empty(), true)
    } else {
        let (o, d) = slug_state(l.drop_last());
        let c = l.last();
        if is_ascii_alnum(c) {
            (o.push(c), false)
        } else if !d {
            (o.push('-'), true)
        } else {
            (o, d)
        }
    }
}

/// taskmd's filename slug of an already lowercased title: ASCII letters and
/// digits kept, every run of other characters one `-`, no dash at either end.
pub open spec fn slug_of(l: Seq<char>) -> Seq<char> {
    rtrim_char(slug_state(l).0, '-')
}

/// A well-formed slug: only `a`-`z`, `0`-`9` and `-`, no dash at either end
/// and never two dashes in a row.
pub open spec fn slug_shaped(s: Seq<char>) -> bool {
    &&& forall|i: int| 0 <= i < s.len() ==> slug_char(#[trigger] s[i])
    &&& s.len() > 0 ==> s[0] != '-' && s[s.len() - 1] != '-'
    &&& forall|i: int| 0 <= i < s.len() - 1 ==> !(#[trigger] s[i] == '-' && s[i + 1] == '-')
}

pub open spec fn slug_char(c: char) -> bool {
    ('a' <= c && c <= 'z') || ('0' <= c && c <= '9') || c == '-'
}

/// What the slug walk has built from text without ASCII capitals: slug
/// characters, no leading or doubled dash, and the flag says whether it ends
/// in a dash (or is empty).
proof fn lemma_slug_state(l: Seq<char>)
    requires
        forall|i: int| 0 <= i < l.len() ==> !('A' <= #[trigger] l[i] && l[i] <= 'Z'),
    ensures
        ({
            let (o, d) = slug_state(l);
            &&& forall|i: int| 0 <= i < o.len() ==> slug_char(#[trigger] o[i])
            &&& o.len() > 0 ==> o[0] != '-'
            &&& forall|i: int| 0 <= i < o.len() - 1 ==> !(#[trigger] o[i] == '-' && o[i + 1] == '-')
            &&& d <==> (o.len() == 0 || o[o.len() - 1] == '-')
        }),
    decreases l.len(),
{
    if l.len() > 0 {
        let p = l.drop_last();
        assert forall|i: int| 0 <= i < p.len() implies !('A' <= #[trigger] p[i] && p[i] <= 'Z') by {
            assert(p[i] == l[i]);
        }
        lemma_slug_state(p);
        let (o0, d0) = slug_state(p);
        assert(!('A' <= l[l.len() - 1] && l[l.len() - 1] <= 'Z'));
        let (o, d) = slug_state(l);
        assert forall|i: int| 0 <= i < o.len() - 1 implies !(#[trigger] o[i] == '-' && o[i + 1] == '-') by {
            if i < o0.len() - 1 {
                assert(o[i] == o0[i] && o[i + 1] == o0[i + 1]);
            }
        }
        assert forall|i: int| 0 <= i < o.len() implies slug_char(#[trigger] o[i]) by {
            if i < o0.len() {
                assert(o[i] == o0[i]);
            }
        }
    }
}

/// Dropping trailing dashes from a walk result leaves a well-formed slug.
proof fn lemma_slug_trim(o: Seq<char>)
    requires
        forall|i: int| 0 <= i < o.len() ==> slug_char(#[trigger] o[i]),
        o.len() > 0 ==> o[0] != '-',
        forall|i: int| 0 <= i < o.len() - 1 ==> !(#[trigger] o[i] == '-' && o[i + 1] == '-'),
    ensures
        slug_shaped(rtrim_char(o, '-')),
    decreases o.len(),
{
    if o.len() > 0 && o.last() == '-' {
        let p = o.drop_last();
        assert forall|i: int| 0 <= i < p.len() implies slug_char(#[trigger] p[i]) by {
            assert(p[i] == o[i]);
        }
        assert forall|i: int| 0 <= i < p.len() - 1 implies !(#[trigger] p[i] == '-' && p[i + 1] == '-') by {
            assert(p[i] == o[i] && p[i + 1] == o[i + 1]);
        }
        lemma_slug_trim(p);
    }
}

/// A well-formed slug slugifies to itself: lowering leaves it alone and the
/// walk keeps every character. So slugifying a slug gives the same slug.
pub proof fn law_slug_idempotent(s: Seq<char>)
    requires
        slug_shaped(s),
    ensures
        s.map_values(|c: char| ascii_lower(c)) == s,
        slug_of(s) == s,
{
    assert(s.map_values(|c: char| ascii_lower(c)) =~= s) by {
        assert forall|i: int| 0 <= i < s.len() implies s.map_values(|c: char| ascii_lower(c))[i] == s[i] by {
            assert(slug_char(s[i]));
        }
    }
    lemma_slug_walk_keeps(s, s.len() as int);
    assert(s.take(s.len() as int) =~= s);
}

proof fn lemma_slug_walk_keeps(s: Seq<char>, n: int)
    requires
        slug_shaped(s),
        0 <= n <= s.len(),
    ensures
        slug_state(s.take(n)) == (s.take(n), n == 0 || s[n - 1] == '-'),
    decreases n,
{
    if n > 0 {
        lemma_slug_walk_keeps(s, n - 1);
        assert(s.take(n).drop_last() =~= s.take(n - 1));
        assert(s.take(n).last() == s[n - 1]);
        assert(slug_char(s[n - 1]));
        if s[n - 1] == '-' {
            assert(n - 1 > 0);
            assert(!(s[n - 2] == '-' && s[(n - 2) + 1] == '-'));
        }
        assert(s.take(n - 1).push(s[n - 1]) =~= s.take(n));
    }
}

/// Match taskmd's filename slug: lowercase, runs of non-`[a-z0-9]` become
/// one `-`, trimmed. Non-ASCII letters are dropped ("prüfen" gives "pr-fen").
/// The result is a well-formed slug.
pub fn slugify(title: &str) -> (r: String)
    ensures
        r@ == slug_of(spec_to_lowercase(title@)),
        slug_shaped(r@),
{
    let lower = to_lowercase(title);
    proof {
        lemma_slug_state(lower@);
        lemma_slug_trim(slug_state(lower@).0);
    }
    let l = chars_of(lower.as_str());
    let mut out: Vec<char> = Vec::new();
    let mut last_dash = true;
    let mut i: usize = 0;
    while i < l.len()
        invariant
            i <= l.len(),
            (out@, last_dash) == slug_state(l@.take(i as int)),
        decreases l.len() - i,
    {
        assert(l@.take(i + 1).drop_last() =~= l@.take(i as int));
        let c = l[i];
        if ('a' <= c && c <= 'z') || ('A' <= c && c <= 'Z') || ('0' <= c && c <= '9') {
            out.push(c);
            last_dash = false;
        } else if !last_dash {
            out.push('-');
            last_dash = true;
        }
        i += 1;
    }
    assert(l@.take(l.len() as int) =~= l@);
    let mut hi = out.len();
    assert(out@.take(hi as int) =~= out@);
    while hi > 0 && out[hi - 1] == '-'
        invariant
            hi <= out.len(),
            rtrim_char(out@, '-') == rtrim_char(out@.take(hi as int), '-'),
        decreases hi,
    {
        assert(out@.take(hi - 1) =~= out@.take(hi as int).drop_last());
        hi -= 1;
    }
    let mut res: Vec<char> = Vec::new();
    let mut j: usize = 0;
    while j < hi
        invariant
            j <= hi,
            hi <= out.len(),
            res@ =~= out@.take(j as int),
        decreases hi - j,
    {
        res.push(out[j]);
        j += 1;
    }
    proof {
        let t = out@.take(hi as int);
        assert(res@ =~= t);
        assert(hi == 0 || t.last() != '-');
    }
    string_of(&res)
}

/// `s` with every `\` and `"` escaped by a backslash.
pub open spec fn yaml_escape(s: Seq<char>) -> Seq<char>
    decreases s.len(),
{
    if s.len() == 0 {
        Seq::empty()
    } else {
        let c = s.last();
        yaml_escape(s.drop_last()) + (if c == '\\' || c == '"' {
            seq!['\\', c]
        } else {
            seq![c]
        })
    }
}

/// `s` as a YAML double-quoted scalar.
pub open spec fn yaml_quote_spec(s: Seq<char>) -> Seq<char> {
    seq!['"'] + yaml_escape(s) + seq!['"']
}

/// Quote a string as a YAML double-quoted scalar (escaping `\` and `"`).
pub fn yaml_quote(s: &str) -> (r: String)
    ensures
        r@ == yaml_quote_spec(s@),
{
    let c = chars_of(s);
    let mut out: Vec<char> = Vec::new();
    out.push('"');
    let mut i: usize = 0;
    while i < c.len()
        invariant
            i <= c.len(),
            out@ == seq!['"'] + yaml_escape(c@.take(i as int)),
        decreases c.len() - i,
    {
        assert(c@.take(i + 1).drop_last() =~= c@.take(i as int));
        let ch = c[i];
        if ch == '\\' || ch == '"' {
            out.push('\\');
            out.push(ch);
            assert(out@ =~= seq!['"'] + yaml_escape(c@.take(i + 1)));
        } else {
            out.push(ch);
            assert(out@ =~= seq!['"'] + yaml_escape(c@.take(i + 1)));
        }
        i += 1;
    }
    out.push('"');
    assert(c@.take(c.len() as int) =~= c@);
    string_of(&out)
}

/// `quoted` items joined by `, `.
pub open spec fn join_quoted(tags: Seq<Seq<char>>) -> Seq<char>
    decreases tags.len(),
{
    if tags.len() == 0 {
        Seq::empty()
    } else if tags.len() == 1 {
        yaml_quote_spec(tags[0])
    } else {
        join_quoted(tags.drop_last()) + ", "@ + yaml_quote_spec(tags.last())
    }
}

/// A YAML flow list of quoted tags.
pub open spec fn render_tags_spec(tags: Seq<Seq<char>>) -> Seq<char> {
    if tags.len() == 0 {
        "[]"@
    } else {
        "["@ + join_quoted(tags) + "]"@
    }
}

/// Render tags as a YAML flow list of double-quoted strings.
pub fn render_tags(tags: &[String]) -> (r: String)
    ensures
        r@ == render_tags_spec(texts(tags@)),
{
    if tags.len() == 0 {
        return "[]".to_owned();
    }
    let mut out = "[".to_owned();
    let mut i: usize = 0;
    while i < tags.len()
        invariant
            1 <= tags.len(),
            i <= tags.len(),
            out@ == "["@ + join_quoted(texts(tags@.take(i as int))),
        decreases tags.len() - i,
    {
        let ghost prev = texts(tags@.take(i as int));
        assert(texts(tags@.take(i + 1)).drop_last() =~= prev);
        if i > 0 {
            out.append(", ");
        }
        let q = yaml_quote(tags[i].as_str());
        out.append(q.as_str());
        proof {
            let now = texts(tags@.take(i + 1));
            assert(now.last() == tags@[i as int]@);
            if i == 0 {
                assert(prev.len() == 0);
                assert(now.len() == 1);
                assert(out@ =~= "["@ + join_quoted(now));
            } else {
                assert(out@ =~= "["@ + join_quoted(now));
            }
        }
        i += 1;
    }
    out.append("]");
    assert(tags@.take(tags.len() as int) =~= tags@);
    out
}

/// The frontmatter of a generated task.
pub open spec fn render_frontmatter_spec(rule: Rule, id: Seq<char>, marker: Seq<char>, date: Seq<char>) -> Seq<char> {
    "---\n"@ + "id: "@ + yaml_quote_spec(id) + "\n"@ + "title: "@ + yaml_quote_spec(rule.title@) + "\n"@
        + "status: pending\n"@ + "priority: "@ + (match rule.priority {
        Some(p) => p@,
        None => "medium"@,
    }) + "\n"@ + (match rule.phase {
        Some(ph) => "phase: "@ + ph@ + "\n"@,
        None => Seq::empty(),
    }) + "dependencies: []\n"@ + "tags: "@ + render_tags_spec(texts(rule.tags@)) + "\n"@
        + "created_at: "@ + date + "\n"@ + "recurring: "@ + yaml_quote_spec(marker) + "\n"@
        + "---\n\n"@
}

/// A generated task file: frontmatter (with the `recurring` marker), the
/// `# <title>` heading, a provenance comment, and the rule's body (trimmed)
/// or a `TODO` stub.
pub open spec fn render_task_spec(rule: Rule, id: Seq<char>, marker: Seq<char>, date: Seq<char>) -> Seq<char> {
    render_frontmatter_spec(rule, id, marker, date) + "# "@ + rule.title@ + (match rule.body {
        Some(b) => "\n\n<!-- Generated by karamd for recurring rule `"@ + rule.key@ + "`. -->\n\n"@
            + trim(b@) + "\n"@,
        None => "\n\n## Objective\n\n<!-- Generated by karamd for recurring rule `"@ + rule.key@
            + "`. -->\n\n## Tasks\n\n- [ ] TODO\n\n## Acceptance Criteria\n\n- TODO\n"@,
    })
}

/// The markdown for one generated task (see [`render_task_spec`]).
pub fn render_task(rule: &Rule, id: &str, marker: &str, today: Date) -> (r: String)
    requires
        today.wf(),
    ensures
        r@ == render_task_spec(*rule, id@, marker@, spec_format_ymd(today.year as int, today.month as int, today.day as int)),
{
    let mut fm = "---\n".to_owned();
    fm.append("id: ");
    fm.append(yaml_quote(id).as_str());
    fm.append("\n");
    fm.append("title: ");
    fm.append(yaml_quote(rule.title.as_str()).as_str());
    fm.append("\n");
    fm.append("status: pending\n");
    fm.append("priority: ");
    match &rule.priority {
        Some(p) => fm.append(p.as_str()),
        None => fm.append("medium"),
    }
    fm.append("\n");
    match &rule.phase {
        Some(ph) => {
            fm.append("phase: ");
            fm.append(ph.as_str());
            fm.append("\n");
        },
        None => {},
    }
    fm.append("dependencies: []\n");
    fm.append("tags: ");
    fm.append(render_tags(rule.tags.as_slice()).as_str());
    fm.append("\n");
    fm.append("created_at: ");
    fm.append(today.format().as_str());
    fm.append("\n");
    fm.append("recurring: ");
    fm.append(yaml_quote(marker).as_str());
    fm.append("\n");
    fm.append("---\n\n");
    assert(fm@ =~= render_frontmatter_spec(*rule, id@, marker@, spec_format_ymd(today.year as int, today.month as int, today.day as int)));
    fm.append("# ");
    fm.append(rule.title.as_str());
    match &rule.body {
        Some(b) => {
            fm.append("\n\n<!-- Generated by karamd for recurring rule `");
            fm.append(rule.key.as_str());
            fm.append("`. -->\n\n");
            let bc = chars_of(b.as_str());
            let t = string_of(&trim_chars(&bc));
            fm.append(t.as_str());
            fm.append("\n");
        },
        None => {
            fm.append("\n\n## Objective\n\n<!-- Generated by karamd for recurring rule `");
            fm.append(rule.key.as_str());
            fm.append("`. -->\n\n## Tasks\n\n- [ ] TODO\n\n## Acceptance Criteria\n\n- TODO\n");
        },
    }
    fm
}

} // verus!
