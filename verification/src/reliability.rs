//! Agent reliability from post-merge grade cards: each card's alignment is an
//! outcome score, bucketed per authoring agent and per task class (the
//! conventional-commit prefix of the PR title). Cards without an agent are
//! bucketed under `unknown` — never dropped, never guessed. The pooled bucket
//! over all agents is the baseline any per-agent claim must beat.
//!
//! Scores are kept exactly, in half points: `High` is 2, `Medium` 1, `Low` 0.
//! A bucket's mean is `half_points / (2 n)`, and its prior-smoothed score
//! (pseudo-count weight 2 at mean 1/2) is `(half_points + 2) / (2 (n + 2))`.

use vstd::prelude::*;
use crate::keymap::KeyMap;
use crate::text::{chars_of, string_from_chars, str_eq, owned, before_char, is_white_space, trim_start, trim_end,
    white_space, lemma_before_char, lemma_trim_start, lemma_trim_end};

verus! {

/// Version of the report this module emits.
pub const RELIABILITY_REPORT_SCHEMA: &'static str = "hari-agent-reliability-report-v0.1.0";

/// The grade-card schema this module accepts.
pub const GRADE_SCHEMA: &'static str = "pr-grade-v1";

/// A grade card's alignment between stated intent and the change made.
#[derive(Debug, Clone, Copy, PartialEq, Eq, Structural)]
pub enum Alignment {
    High,
    Medium,
    Low,
}

/// Alignment as an outcome score in half points: `High` 2, `Medium` 1,
/// `Low` 0 (that is, 1.0, 0.5 and 0.0).
pub open spec fn half_points(a: Alignment) -> nat {
    match a {
        Alignment::High => 2,
        Alignment::Medium => 1,
        Alignment::Low => 0,
    }
}

/// Alignment as an outcome score in half points.
pub fn alignment_half_points(alignment: Alignment) -> (p: u64)
    ensures
        p == half_points(alignment),
{
    match alignment {
        Alignment::High => 2,
        Alignment::Medium => 1,
        Alignment::Low => 0,
    }
}

/// The part of a grade card this module reads.
#[derive(Debug, Clone, PartialEq, Eq)]
pub struct GradeCard {
    pub schema: String,
    pub pr_number: u64,
    pub merge_sha: String,
    pub title: String,
    pub alignment: Alignment,
    /// The identity that authored the PR; absent on cards graded before the
    /// field existed.
    pub agent: Option<String>,
}

/// `s` without one trailing `!`.
pub open spec fn strip_bang(s: Seq<char>) -> Seq<char> {
    if s.len() > 0 && s.last() == '!' {
        s.drop_last()
    } else {
        s
    }
}

/// ASCII letters lowercased, everything else unchanged.
pub open spec fn ascii_lower(s: Seq<char>) -> Seq<char> {
    s.map_values(|c: char| if 'A' <= c <= 'Z' { ((c as u32) + 32) as char } else { c })
}

/// The task classes a title's prefix can name.
pub open spec fn known_class(h: Seq<char>) -> bool {
    h == "feat"@ || h == "fix"@ || h == "docs"@ || h == "refactor"@ || h == "test"@ || h == "chore"@
        || h == "perf"@ || h == "ci"@ || h == "build"@ || h == "style"@
}

/// A title's conventional-commit prefix: before the first `:`, before the
/// first `(`, trimmed, one trailing `!` stripped, lowercased.
pub open spec fn title_head(t: Seq<char>) -> Seq<char> {
    ascii_lower(strip_bang(trim_end(trim_start(before_char(before_char(t, ':'), '(')))))
}

/// The task class of a title: its prefix when that is a known class,
/// otherwise `other`.
pub open spec fn task_class_of(t: Seq<char>) -> Seq<char> {
    if known_class(title_head(t)) {
        title_head(t)
    } else {
        "other"@
    }
}

/// The task class of a PR title: the conventional-commit prefix, lowercased,
/// scope and `!` stripped — `feat`, `fix`, `docs`, `refactor`, `test`,
/// `chore`, `perf`, `ci`, `build` or `style`; anything else is `other`.
pub fn task_class(title: &str) -> (r: String)
    ensures
        r@ == task_class_of(title@),
{
    let cs = chars_of(title);
    // Up to the first ':' and then the first '('.
    let mut end: usize = 0;
    while end < cs.len() && cs[end] != ':'
        invariant
            end <= cs@.len(),
            forall|q: int| 0 <= q < end ==> cs@[q] != ':',
        decreases cs@.len() - end,
    {
        end = end + 1;
    }
    proof {
        lemma_before_char(cs@, ':', end as int);
    }
    let ghost a = cs@.take(end as int);
    let mut end2: usize = 0;
    while end2 < end && cs[end2] != '('
        invariant
            end2 <= end <= cs@.len(),
            a == cs@.take(end as int),
            forall|q: int| 0 <= q < end2 ==> cs@[q] != '(',
        decreases end - end2,
    {
        end2 = end2 + 1;
    }
    proof {
        assert forall|q: int| 0 <= q < end2 implies a[q] != '(' by {
            assert(a[q] == cs@[q]);
        }
        if end2 < end {
            assert(a[end2 as int] == '(');
        }
        lemma_before_char(a, '(', end2 as int);
        assert(a.take(end2 as int) =~= cs@.take(end2 as int));
    }
    let ghost b = cs@.take(end2 as int);
    // Trim white space on both sides.
    let mut lo: usize = 0;
    while lo < end2 && white_space(cs[lo])
        invariant
            lo <= end2 <= cs@.len(),
            b == cs@.take(end2 as int),
            forall|q: int| 0 <= q < lo ==> is_white_space(cs@[q]),
        decreases end2 - lo,
    {
        lo = lo + 1;
    }
    proof {
        lemma_trim_start(b, lo as int);
        assert(b.skip(lo as int) =~= cs@.subrange(lo as int, end2 as int));
    }
    let ghost c = cs@.subrange(lo as int, end2 as int);
    let mut hi: usize = end2;
    while hi > lo && white_space(cs[hi - 1])
        invariant
            lo <= hi <= end2 <= cs@.len(),
            c == cs@.subrange(lo as int, end2 as int),
            forall|q: int| hi <= q < end2 ==> is_white_space(cs@[q]),
        decreases hi - lo,
    {
        hi = hi - 1;
    }
    proof {
        lemma_trim_end(c, hi - lo);
        assert(c.take(hi - lo) =~= cs@.subrange(lo as int, hi as int));
    }
    // Strip one trailing '!'.
    if hi > lo && cs[hi - 1] == '!' {
        hi = hi - 1;
        proof {
            assert(cs@.subrange(lo as int, hi + 1).drop_last() =~= cs@.subrange(lo as int, hi as int));
        }
    }
    let ghost d = cs@.subrange(lo as int, hi as int);
    let mut head: Vec<char> = Vec::new();
    let mut i: usize = lo;
    while i < hi
        invariant
            lo <= i <= hi <= cs@.len(),
            d == cs@.subrange(lo as int, hi as int),
            head@ == ascii_lower(d.take(i - lo)),
        decreases hi - i,
    {
        let ch = cs[i];
        let lower = if 'A' <= ch && ch <= 'Z' {
            char_from_code(ch as u32 + 32)
        } else {
            ch
        };
        head.push(lower);
        proof {
            assert(ascii_lower(d.take(i + 1 - lo)) =~= ascii_lower(d.take(i - lo)).push(lower));
        }
        i = i + 1;
    }
    proof {
        assert(d.take(hi - lo) =~= d);
        assert(head@ == title_head(title@));
    }
    let h = string_from_chars(head.as_slice());
    if known_head(h.as_str()) {
        h
    } else {
        owned("other")
    }
}

fn char_from_code(n: u32) -> (c: char)
    requires
        0x61 <= n <= 0x7A,
    ensures
        c == n as char,
{
    match n {
        0x61 => 'a',
        0x62 => 'b',
        0x63 => 'c',
        0x64 => 'd',
        0x65 => 'e',
        0x66 => 'f',
        0x67 => 'g',
        0x68 => 'h',
        0x69 => 'i',
        0x6A => 'j',
        0x6B => 'k',
        0x6C => 'l',
        0x6D => 'm',
        0x6E => 'n',
        0x6F => 'o',
        0x70 => 'p',
        0x71 => 'q',
        0x72 => 'r',
        0x73 => 's',
        0x74 => 't',
        0x75 => 'u',
        0x76 => 'v',
        0x77 => 'w',
        0x78 => 'x',
        0x79 => 'y',
        _ => 'z',
    }
}

fn known_head(h: &str) -> (r: bool)
    ensures
        r == known_class(h@),
{
    str_eq(h, "feat") || str_eq(h, "fix") || str_eq(h, "docs") || str_eq(h, "refactor") || str_eq(h, "test")
        || str_eq(h, "chore") || str_eq(h, "perf") || str_eq(h, "ci") || str_eq(h, "build") || str_eq(
        h,
        "style",
    )
}


/// A lowercase word followed by `:` is its own title head, whatever comes
/// after the colon.
proof fn lemma_lowercase_head(w: Seq<char>, rest: Seq<char>)
    requires
        w.len() > 0,
        forall|i: int| 0 <= i < w.len() ==> 'a' <= #[trigger] w[i] <= 'z',
    ensures
        title_head(w + seq![':'] + rest) == w,
{
    let t = w + seq![':'] + rest;
    assert forall|q: int| 0 <= q < w.len() implies t[q] != ':' by {
        assert(t[q] == w[q]);
    }
    assert(t[w.len() as int] == ':');
    crate::text::lemma_before_char(t, ':', w.len() as int);
    assert(t.take(w.len() as int) =~= w);
    crate::text::lemma_before_char(w, '(', w.len() as int);
    assert(w.take(w.len() as int) =~= w);
    assert(!is_white_space(w[0]));
    crate::text::lemma_trim_start(w, 0);
    assert(w.skip(0) =~= w);
    assert(!is_white_space(w[w.len() - 1]));
    crate::text::lemma_trim_end(w, w.len() as int);
    assert(w.last() != '!');
    assert(strip_bang(w) == w);
    assert(ascii_lower(w) =~= w);
}

/// The task classes are exactly `feat`, `fix`, `docs`, `refactor`, `test`,
/// `chore`, `perf`, `ci`, `build` and `style`: a title whose prefix before
/// the first `:` is one of these words falls in that class, whatever follows,
/// and every title falls in one of them or in `other`.
pub proof fn law_the_known_task_classes(rest: Seq<char>, title: Seq<char>)
    ensures
        task_class_of("feat"@ + seq![':'] + rest) == "feat"@,
        task_class_of("fix"@ + seq![':'] + rest) == "fix"@,
        task_class_of("docs"@ + seq![':'] + rest) == "docs"@,
        task_class_of("refactor"@ + seq![':'] + rest) == "refactor"@,
        task_class_of("test"@ + seq![':'] + rest) == "test"@,
        task_class_of("chore"@ + seq![':'] + rest) == "chore"@,
        task_class_of("perf"@ + seq![':'] + rest) == "perf"@,
        task_class_of("ci"@ + seq![':'] + rest) == "ci"@,
        task_class_of("build"@ + seq![':'] + rest) == "build"@,
        task_class_of("style"@ + seq![':'] + rest) == "style"@,
        ({
            let c = task_class_of(title);
            c == "feat"@ || c == "fix"@ || c == "docs"@ || c == "refactor"@ || c == "test"@ || c == "chore"@
                || c == "perf"@ || c == "ci"@ || c == "build"@ || c == "style"@ || c == "other"@
        }),
{
    reveal_strlit("feat");
    reveal_strlit("fix");
    reveal_strlit("docs");
    reveal_strlit("refactor");
    reveal_strlit("test");
    reveal_strlit("chore");
    reveal_strlit("perf");
    reveal_strlit("ci");
    reveal_strlit("build");
    reveal_strlit("style");
    lemma_lowercase_head("feat"@, rest);
    lemma_lowercase_head("fix"@, rest);
    lemma_lowercase_head("docs"@, rest);
    lemma_lowercase_head("refactor"@, rest);
    lemma_lowercase_head("test"@, rest);
    lemma_lowercase_head("chore"@, rest);
    lemma_lowercase_head("perf"@, rest);
    lemma_lowercase_head("ci"@, rest);
    lemma_lowercase_head("build"@, rest);
    lemma_lowercase_head("style"@, rest);
}

/// Before the first `:` of `p + ":" + rest` there is exactly `p`, when `p`
/// holds no `:`.
proof fn lemma_head_before_colon(p: Seq<char>, rest: Seq<char>)
    requires
        forall|i: int| 0 <= i < p.len() ==> #[trigger] p[i] != ':',
    ensures
        before_char(p + seq![':'] + rest, ':') == p,
{
    let t = p + seq![':'] + rest;
    assert forall|q: int| 0 <= q < p.len() implies t[q] != ':' by {
        assert(t[q] == p[q]);
    }
    assert(t[p.len() as int] == ':');
    crate::text::lemma_before_char(t, ':', p.len() as int);
    assert(t.take(p.len() as int) =~= p);
}

/// The class is read through a scope, a breaking-change `!`, surrounding
/// white space and upper case: a known class word `w` followed by `(scope)`,
/// by `!`, padded with spaces, or written in capitals, then `:`, falls in
/// class `w`.
pub proof fn law_task_class_reads_through_scope_bang_space_and_case(w: Seq<char>, scope: Seq<char>, rest: Seq<char>)
    requires
        w.len() > 0,
        forall|i: int| 0 <= i < w.len() ==> 'a' <= #[trigger] w[i] <= 'z',
        known_class(w),
        forall|i: int| 0 <= i < scope.len() ==> #[trigger] scope[i] != ':',
    ensures
        task_class_of(w + seq!['('] + scope + seq![')'] + seq![':'] + rest) == w,
        task_class_of(w + seq!['!'] + seq![':'] + rest) == w,
        task_class_of(seq![' '] + w + seq![' '] + seq![':'] + rest) == w,
        task_class_of(w.map_values(|c: char| ((c as u32) - 32) as char) + seq![':'] + rest) == w,
{
    // Scope.
    let ps = w + seq!['('] + scope + seq![')'];
    assert forall|i: int| 0 <= i < ps.len() implies #[trigger] ps[i] != ':' by {
        if i < w.len() {
            assert(ps[i] == w[i]);
        } else if i > w.len() && i < ps.len() - 1 {
            assert(ps[i] == scope[i - w.len() - 1]);
        }
    }
    lemma_head_before_colon(ps, rest);
    assert forall|q: int| 0 <= q < w.len() implies ps[q] != '(' by {
        assert(ps[q] == w[q]);
    }
    crate::text::lemma_before_char(ps, '(', w.len() as int);
    assert(ps.take(w.len() as int) =~= w);
    crate::text::lemma_before_char(w, '(', w.len() as int);
    assert(w.take(w.len() as int) =~= w);
    assert(!is_white_space(w[0]));
    crate::text::lemma_trim_start(w, 0);
    assert(w.skip(0) =~= w);
    assert(!is_white_space(w[w.len() - 1]));
    crate::text::lemma_trim_end(w, w.len() as int);
    assert(strip_bang(w) == w);
    assert(ascii_lower(w) =~= w);
    // Bang.
    let pb = w + seq!['!'];
    assert forall|i: int| 0 <= i < pb.len() implies #[trigger] pb[i] != ':' && pb[i] != '(' by {
        if i < w.len() {
            assert(pb[i] == w[i]);
        }
    }
    lemma_head_before_colon(pb, rest);
    crate::text::lemma_before_char(pb, '(', pb.len() as int);
    assert(pb.take(pb.len() as int) =~= pb);
    assert(pb[0] == w[0]);
    crate::text::lemma_trim_start(pb, 0);
    assert(pb.skip(0) =~= pb);
    crate::text::lemma_trim_end(pb, pb.len() as int);
    assert(pb.drop_last() =~= w);
    // Spaces.
    let pw = seq![' '] + w + seq![' '];
    assert forall|i: int| 0 <= i < pw.len() implies #[trigger] pw[i] != ':' && pw[i] != '(' by {
        if 0 < i < pw.len() - 1 {
            assert(pw[i] == w[i - 1]);
        }
    }
    lemma_head_before_colon(pw, rest);
    crate::text::lemma_before_char(pw, '(', pw.len() as int);
    assert(pw.take(pw.len() as int) =~= pw);
    assert(pw[1] == w[0]);
    crate::text::lemma_trim_start(pw, 1);
    let pw1 = pw.skip(1);
    assert(pw1 =~= w + seq![' ']);
    crate::text::lemma_trim_end(pw1, w.len() as int);
    assert(pw1.take(w.len() as int) =~= w);
    // Capitals.
    let pu = w.map_values(|c: char| ((c as u32) - 32) as char);
    assert forall|i: int| 0 <= i < pu.len() implies 'A' <= #[trigger] pu[i] <= 'Z' && ((pu[i] as u32) + 32) as char == w[i] by {
        assert(pu[i] == ((w[i] as u32) - 32) as char);
    }
    assert forall|i: int| 0 <= i < pu.len() implies #[trigger] pu[i] != ':' && pu[i] != '(' by {
        assert('A' <= pu[i] <= 'Z');
    }
    lemma_head_before_colon(pu, rest);
    crate::text::lemma_before_char(pu, '(', pu.len() as int);
    assert(pu.take(pu.len() as int) =~= pu);
    assert('A' <= pu[0] <= 'Z');
    assert('A' <= pu[pu.len() - 1] <= 'Z');
    crate::text::lemma_trim_start(pu, 0);
    assert(pu.skip(0) =~= pu);
    crate::text::lemma_trim_end(pu, pu.len() as int);
    assert(pu.take(pu.len() as int) =~= pu);
    assert(strip_bang(pu) == pu);
    assert(ascii_lower(pu) =~= w);
}

/// A bucket of outcome scores: how many cards and their total in half
/// points.
#[derive(Debug, Clone, Copy, PartialEq, Eq, Structural)]
pub struct ScoreTally {
    pub n: usize,
    pub half_points: u64,
}

/// One agent's overall bucket and its per-task-class split.
#[derive(Debug, Clone, PartialEq, Eq)]
pub struct AgentTally {
    pub overall: ScoreTally,
    pub by_class: KeyMap<ScoreTally>,
}

/// The report's exact tallies.
#[derive(Debug, Clone, PartialEq, Eq)]
pub struct ReliabilityTallies {
    /// Cards ingested.
    pub graded_prs: usize,
    /// All agents pooled — the baseline.
    pub pooled: ScoreTally,
    /// Per agent (`unknown` for cards without one), ascending.
    pub by_agent: KeyMap<AgentTally>,
}

/// The agent a card is bucketed under.
pub open spec fn agent_of(c: GradeCard) -> Seq<char> {
    match c.agent {
        Some(a) => a@,
        None => "unknown"@,
    }
}

/// How many of the cards satisfy `f`, and their total in half points.
pub open spec fn tally(cards: Seq<GradeCard>, f: spec_fn(GradeCard) -> bool) -> (nat, nat)
    decreases cards.len(),
{
    if cards.len() == 0 {
        (0, 0)
    } else {
        let (n, p) = tally(cards.drop_last(), f);
        if f(cards.last()) {
            (n + 1, p + half_points(cards.last().alignment))
        } else {
            (n, p)
        }
    }
}

/// The cards of agent `a`.
pub open spec fn of_agent(a: Seq<char>) -> spec_fn(GradeCard) -> bool {
    |c: GradeCard| agent_of(c) == a
}

/// The cards of agent `a` in task class `k`.
pub open spec fn of_agent_class(a: Seq<char>, k: Seq<char>) -> spec_fn(GradeCard) -> bool {
    |c: GradeCard| agent_of(c) == a && task_class_of(c.title@) == k
}

/// The tallies match the cards: the pooled bucket holds all of them, and
/// each agent's and each agent-class bucket exactly the cards of it.
pub open spec fn tallies_match(t: ReliabilityTallies, cards: Seq<GradeCard>) -> bool {
    &&& t.graded_prs == cards.len()
    &&& t.pooled.n == tally(cards, |c: GradeCard| true).0
    &&& t.pooled.half_points == tally(cards, |c: GradeCard| true).1
    &&& t.by_agent.wf()
    &&& forall|a: Seq<char>| #[trigger] t.by_agent.map_view().contains_key(a) <==> tally(cards, of_agent(a)).0 > 0
    &&& forall|a: Seq<char>| #[trigger] t.by_agent.map_view().contains_key(a) ==> {
        let e = t.by_agent.map_view()[a];
        &&& e.overall.n == tally(cards, of_agent(a)).0
        &&& e.overall.half_points == tally(cards, of_agent(a)).1
        &&& e.by_class.wf()
        &&& forall|k: Seq<char>| #[trigger] e.by_class.map_view().contains_key(k) <==> tally(cards, of_agent_class(a, k)).0 > 0
        &&& forall|k: Seq<char>| #[trigger] e.by_class.map_view().contains_key(k) ==> e.by_class.map_view()[k].n == tally(cards, of_agent_class(a, k)).0
            && e.by_class.map_view()[k].half_points == tally(cards, of_agent_class(a, k)).1
    }
}

proof fn lemma_tally_step(cards: Seq<GradeCard>, i: int, f: spec_fn(GradeCard) -> bool)
    requires
        0 <= i < cards.len(),
    ensures
        tally(cards.take(i + 1), f) == if f(cards[i]) {
            (tally(cards.take(i), f).0 + 1, tally(cards.take(i), f).1 + half_points(cards[i].alignment))
        } else {
            tally(cards.take(i), f)
        },
{
    assert(cards.take(i + 1).drop_last() =~= cards.take(i));
}

proof fn lemma_tally_bound(cards: Seq<GradeCard>, f: spec_fn(GradeCard) -> bool)
    ensures
        tally(cards, f).0 <= cards.len(),
        tally(cards, f).1 <= 2 * tally(cards, f).0,
    decreases cards.len(),
{
    if cards.len() > 0 {
        lemma_tally_bound(cards.drop_last(), f);
    }
}

proof fn lemma_tally_subset(cards: Seq<GradeCard>, f: spec_fn(GradeCard) -> bool, g: spec_fn(GradeCard) -> bool)
    requires
        forall|c: GradeCard| #[trigger] f(c) ==> g(c),
    ensures
        tally(cards, f).0 <= tally(cards, g).0,
        tally(cards, g).0 == 0 ==> tally(cards, f).1 == 0,
    decreases cards.len(),
{
    if cards.len() > 0 {
        lemma_tally_subset(cards.drop_last(), f, g);
        lemma_tally_bound(cards.drop_last(), f);
    }
}

/// Add one score to the bucket under `k`.
fn bump(m: &mut KeyMap<ScoreTally>, k: String, pts: u64)
    requires
        old(m).wf(),
        pts <= 2,
        old(m).map_view().contains_key(k@) ==> old(m).map_view()[k@].n < usize::MAX
            && old(m).map_view()[k@].n < 0x7fff_ffff_ffff_ffff
            && old(m).map_view()[k@].half_points <= 2 * old(m).map_view()[k@].n,
    ensures
        final(m).wf(),
        final(m).map_view() == old(m).map_view().insert(
            k@,
            if old(m).map_view().contains_key(k@) {
                ScoreTally {
                    n: (old(m).map_view()[k@].n + 1) as usize,
                    half_points: (old(m).map_view()[k@].half_points + pts) as u64,
                }
            } else {
                ScoreTally { n: 1, half_points: pts }
            },
        ),
{
    match m.get(k.as_str()) {
        Some(t) => {
            let next = ScoreTally { n: t.n + 1, half_points: t.half_points + pts };
            m.insert(k, next);
        },
        None => {
            m.insert(k, ScoreTally { n: 1, half_points: pts });
        },
    }
}

/// Tally grade cards per agent and task class, with the pooled baseline.
pub fn report_tallies(cards: &[GradeCard]) -> (t: ReliabilityTallies)
    requires
        cards@.len() < 0x7fff_ffff_ffff_ffff,
    ensures
        tallies_match(t, cards@),
{
    let mut pooled = ScoreTally { n: 0, half_points: 0 };
    let mut by_agent: KeyMap<AgentTally> = KeyMap::new();
    let mut i: usize = 0;
    while i < cards.len()
        invariant
            i <= cards@.len() < 0x7fff_ffff_ffff_ffff,
            tallies_match(ReliabilityTallies { graded_prs: i, pooled, by_agent }, cards@.take(i as int)),
        decreases cards@.len() - i,
    {
        let card = &cards[i];
        let ghost prev = cards@.take(i as int);
        let ghost next = cards@.take(i + 1);
        let pts = alignment_half_points(card.alignment);
        let agent = match &card.agent {
            Some(a) => a.clone(),
            None => owned("unknown"),
        };
        let class = task_class(card.title.as_str());
        proof {
            lemma_tally_step(cards@, i as int, |c: GradeCard| true);
            lemma_tally_bound(prev, |c: GradeCard| true);
            lemma_tally_bound(prev, of_agent(agent@));
            lemma_tally_bound(prev, of_agent_class(agent@, class@));
            assert(agent@ == agent_of(*card));
            assert(class@ == task_class_of(card.title@));
        }
        pooled = ScoreTally { n: pooled.n + 1, half_points: pooled.half_points + pts };
        let ghost before = by_agent.map_view();
        let entry = match by_agent.find(agent.as_str()) {
            Some(pos) => {
                let mut e = by_agent.replace_value(pos, AgentTally { overall: ScoreTally { n: 0, half_points: 0 }, by_class: KeyMap::new() });
                e.overall = ScoreTally { n: e.overall.n + 1, half_points: e.overall.half_points + pts };
                bump(&mut e.by_class, class, pts);
                e
            },
            None => {
                let mut by_class: KeyMap<ScoreTally> = KeyMap::new();
                bump(&mut by_class, class, pts);
                AgentTally { overall: ScoreTally { n: 1, half_points: pts }, by_class }
            },
        };
        by_agent.insert(agent, entry);
        proof {
            assert forall|a: Seq<char>| #[trigger] by_agent.map_view().contains_key(a) <==> tally(next, of_agent(a)).0 > 0 by {
                lemma_tally_step(cards@, i as int, of_agent(a));
            }
            assert forall|a: Seq<char>| #[trigger] by_agent.map_view().contains_key(a) implies {
                let e = by_agent.map_view()[a];
                &&& e.overall.n == tally(next, of_agent(a)).0
                &&& e.overall.half_points == tally(next, of_agent(a)).1
                &&& e.by_class.wf()
                &&& forall|k: Seq<char>| #[trigger] e.by_class.map_view().contains_key(k) <==> tally(next, of_agent_class(a, k)).0 > 0
                &&& forall|k: Seq<char>| #[trigger] e.by_class.map_view().contains_key(k) ==> e.by_class.map_view()[k].n == tally(next, of_agent_class(a, k)).0
                    && e.by_class.map_view()[k].half_points == tally(next, of_agent_class(a, k)).1
            } by {
                lemma_tally_step(cards@, i as int, of_agent(a));
                let e = by_agent.map_view()[a];
                if a != agent@ {
                    assert(e == before[a]);
                }
                assert forall|k: Seq<char>| #[trigger] e.by_class.map_view().contains_key(k) <==> tally(next, of_agent_class(a, k)).0 > 0 by {
                    lemma_tally_step(cards@, i as int, of_agent_class(a, k));
                    lemma_tally_subset(prev, of_agent_class(a, k), of_agent(a));
                }
                assert forall|k: Seq<char>| #[trigger] e.by_class.map_view().contains_key(k) implies e.by_class.map_view()[k].n == tally(next, of_agent_class(a, k)).0
                    && e.by_class.map_view()[k].half_points == tally(next, of_agent_class(a, k)).1 by {
                    lemma_tally_step(cards@, i as int, of_agent_class(a, k));
                    lemma_tally_subset(prev, of_agent_class(a, k), of_agent(a));
                }
            }
        }
        i = i + 1;
    }
    proof {
        assert(cards@.take(cards@.len() as int) =~= cards@);
    }
    ReliabilityTallies { graded_prs: cards.len(), pooled, by_agent }
}

/// The tallies of the buckets `fam(k)` for the keys `keys`, added up.
pub open spec fn bucket_sum(
    keys: Seq<Seq<char>>,
    cards: Seq<GradeCard>,
    fam: spec_fn(Seq<char>) -> spec_fn(GradeCard) -> bool,
) -> (nat, nat)
    decreases keys.len(),
{
    if keys.len() == 0 {
        (0, 0)
    } else {
        let s = bucket_sum(keys.drop_last(), cards, fam);
        let t = tally(cards, fam(keys.last()));
        (s.0 + t.0, s.1 + t.1)
    }
}

proof fn lemma_bucket_sum_empty(keys: Seq<Seq<char>>, cards: Seq<GradeCard>, fam: spec_fn(Seq<char>) -> spec_fn(GradeCard) -> bool)
    requires
        cards.len() == 0,
    ensures
        bucket_sum(keys, cards, fam) == (0nat, 0nat),
    decreases keys.len(),
{
    if keys.len() > 0 {
        lemma_bucket_sum_empty(keys.drop_last(), cards, fam);
    }
}

proof fn lemma_bucket_sum_step(
    keys: Seq<Seq<char>>,
    cards: Seq<GradeCard>,
    fam: spec_fn(Seq<char>) -> spec_fn(GradeCard) -> bool,
    key: spec_fn(GradeCard) -> Seq<char>,
)
    requires
        cards.len() > 0,
        forall|i: int, j: int| 0 <= i < j < keys.len() ==> keys[i] != keys[j],
        forall|c: GradeCard, k: Seq<char>| #[trigger] fam(k)(c) ==> key(c) == k,
    ensures
        ({
            let c = cards.last();
            let prev = bucket_sum(keys, cards.drop_last(), fam);
            bucket_sum(keys, cards, fam) == if keys.contains(key(c)) && fam(key(c))(c) {
                (prev.0 + 1, prev.1 + half_points(c.alignment))
            } else {
                prev
            }
        }),
    decreases keys.len(),
{
    if keys.len() > 0 {
        let init = keys.drop_last();
        let c = cards.last();
        let x = key(c);
        lemma_bucket_sum_step(init, cards, fam, key);
        assert(keys.contains(x) <==> init.contains(x) || keys.last() == x) by {
            if keys.contains(x) {
                let q = choose|q: int| 0 <= q < keys.len() && keys[q] == x;
                if q < keys.len() - 1 {
                    assert(init[q] == x);
                }
            }
            if init.contains(x) {
                let q = choose|q: int| 0 <= q < init.len() && init[q] == x;
                assert(keys[q] == x);
            }
        }
        if init.contains(x) {
            let q = choose|q: int| 0 <= q < init.len() && init[q] == x;
            assert(keys[q] != keys[keys.len() - 1]);
        }
        if fam(keys.last())(c) {
            assert(key(c) == keys.last());
        }
    }
}

proof fn lemma_tally_counts_member(cards: Seq<GradeCard>, k: int, f: spec_fn(GradeCard) -> bool)
    requires
        0 <= k < cards.len(),
        f(cards[k]),
    ensures
        tally(cards, f).0 > 0,
    decreases cards.len(),
{
    if k < cards.len() - 1 {
        lemma_tally_counts_member(cards.drop_last(), k, f);
    }
}

/// A bucket split by key adds up to the bucket: if every card of `g` falls
/// in the bucket of its key, the buckets hold only cards of `g` under their
/// own key, and `keys` lists each key once and covers the cards of `g`.
proof fn lemma_buckets_add_up(
    keys: Seq<Seq<char>>,
    cards: Seq<GradeCard>,
    g: spec_fn(GradeCard) -> bool,
    fam: spec_fn(Seq<char>) -> spec_fn(GradeCard) -> bool,
    key: spec_fn(GradeCard) -> Seq<char>,
)
    requires
        forall|i: int, j: int| 0 <= i < j < keys.len() ==> keys[i] != keys[j],
        forall|c: GradeCard, k: Seq<char>| #[trigger] fam(k)(c) ==> g(c) && key(c) == k,
        forall|c: GradeCard| #[trigger] g(c) ==> fam(key(c))(c),
        forall|i: int| 0 <= i < cards.len() && g(#[trigger] cards[i]) ==> keys.contains(key(cards[i])),
    ensures
        bucket_sum(keys, cards, fam) == tally(cards, g),
    decreases cards.len(),
{
    if cards.len() > 0 {
        let init = cards.drop_last();
        assert forall|i: int| 0 <= i < init.len() && g(#[trigger] init[i]) implies keys.contains(key(init[i])) by {
            assert(init[i] == cards[i]);
        }
        lemma_buckets_add_up(keys, init, g, fam, key);
        lemma_bucket_sum_step(keys, cards, fam, key);
        let c = cards.last();
        if g(c) {
            assert(cards[cards.len() - 1] == c);
        }
    } else {
        lemma_bucket_sum_empty(keys, cards, fam);
    }
}

/// The pooled baseline is the sum of the agents: for the agents that have
/// cards, listed once each, their tallies add up to the pooled one.
pub proof fn law_pooled_is_the_sum_of_the_agents(cards: Seq<GradeCard>, agents: Seq<Seq<char>>)
    requires
        forall|i: int, j: int| 0 <= i < j < agents.len() ==> agents[i] != agents[j],
        forall|a: Seq<char>| #[trigger] agents.contains(a) <==> tally(cards, of_agent(a)).0 > 0,
    ensures
        bucket_sum(agents, cards, |a: Seq<char>| of_agent(a)) == tally(cards, |c: GradeCard| true),
{
    let fam = |a: Seq<char>| of_agent(a);
    let g = |c: GradeCard| true;
    let key = |c: GradeCard| agent_of(c);
    assert forall|i: int| 0 <= i < cards.len() && g(#[trigger] cards[i]) implies agents.contains(key(cards[i])) by {
        lemma_tally_counts_member(cards, i, of_agent(agent_of(cards[i])));
    }
    lemma_buckets_add_up(agents, cards, g, fam, key);
}

/// An agent's overall tally is the sum of its task classes: for the classes
/// it has cards in, listed once each, their tallies add up to its own.
pub proof fn law_an_agent_is_the_sum_of_its_classes(cards: Seq<GradeCard>, a: Seq<char>, classes: Seq<Seq<char>>)
    requires
        forall|i: int, j: int| 0 <= i < j < classes.len() ==> classes[i] != classes[j],
        forall|k: Seq<char>| #[trigger] classes.contains(k) <==> tally(cards, of_agent_class(a, k)).0 > 0,
    ensures
        bucket_sum(classes, cards, |k: Seq<char>| of_agent_class(a, k)) == tally(cards, of_agent(a)),
{
    let fam = |k: Seq<char>| of_agent_class(a, k);
    let g = of_agent(a);
    let key = |c: GradeCard| task_class_of(c.title@);
    assert forall|i: int| 0 <= i < cards.len() && g(#[trigger] cards[i]) implies classes.contains(key(cards[i])) by {
        lemma_tally_counts_member(cards, i, of_agent_class(a, task_class_of(cards[i].title@)));
    }
    lemma_buckets_add_up(classes, cards, g, fam, key);
}

} // verus!
