//! Streaming-prefix recovery.
//!
//! LLMs emit JSON one token at a time. A prefix of a diagram body is made
//! parseable by dropping a dangling comma and appending the closers of the
//! brackets that are still open. This module computes those candidate
//! bodies; decoding each candidate is the caller's part, and the first one
//! that decodes and validates wins.

use crate::text::{
    all_ws, chars_of, is_blank, is_ws, string_from_chars, trim_end, trim_end_len, trim_start,
    trim_start_from,
};
use vstd::prelude::*;

verus! {

/// How many times the tail is backed off by one character before giving up.
pub const MAX_BACKOFF: usize = 4096;

/// Scanner state after reading some text: the closers of the brackets that
/// are still open (innermost last), whether we are inside a string literal,
/// and whether the previous string character was a backslash.
pub open spec fn scan_step(st: (Seq<char>, bool, bool), c: char) -> (Seq<char>, bool, bool) {
    let (stack, in_str, escape) = st;
    if in_str {
        if escape {
            (stack, true, false)
        } else if c == '\\' {
            (stack, true, true)
        } else if c == '"' {
            (stack, false, false)
        } else {
            (stack, true, false)
        }
    } else if c == '"' {
        (stack, true, false)
    } else if c == '{' {
        (stack.push('}'), false, false)
    } else if c == '[' {
        (stack.push(']'), false, false)
    } else if c == '}' || c == ']' {
        if stack.len() > 0 {
            (stack.drop_last(), false, false)
        } else {
            (stack, false, false)
        }
    } else {
        (stack, false, false)
    }
}

/// Scan `s` starting from state `st`.
pub open spec fn scan_from(st: (Seq<char>, bool, bool), s: Seq<char>) -> (Seq<char>, bool, bool)
    decreases s.len(),
{
    if s.len() == 0 {
        st
    } else {
        scan_step(scan_from(st, s.drop_last()), s.last())
    }
}

/// Scan `s` from the start of a body.
pub open spec fn scan(s: Seq<char>) -> (Seq<char>, bool, bool) {
    scan_from((Seq::empty(), false, false), s)
}

/// `s` without trailing whitespace and without one dangling comma (and the
/// whitespace before it).
pub open spec fn without_trailing_comma(s: Seq<char>) -> Seq<char> {
    let t = trim_end(s);
    if t.len() > 0 && t.last() == ',' {
        trim_end(t.drop_last())
    } else {
        t
    }
}

/// The closed-up version of a body prefix: empty when the prefix ends inside
/// a string literal (not recoverable), otherwise the prefix without its
/// dangling comma followed by the closers of every open bracket, innermost
/// first.
pub open spec fn closed(s: Seq<char>) -> Seq<char> {
    let st = scan(s);
    if st.1 || st.2 {
        Seq::empty()
    } else {
        without_trailing_comma(s) + st.0.reverse()
    }
}

/// The string `pat` is a key of the top-level object of `s`, starting at
/// index `i`: it stands outside every string literal, directly inside the
/// outermost object, and the next character after it that is not
/// whitespace is `:` (a string value is followed by `,` or `}` instead).
pub open spec fn top_level_key_at(s: Seq<char>, pat: Seq<char>, i: int) -> bool {
    &&& 0 <= i
    &&& i + pat.len() <= s.len()
    &&& s.subrange(i, i + pat.len()) == pat
    &&& scan(s.subrange(0, i)) == (seq!['}'], false, false)
    &&& {
        let rest = trim_start(s.subrange(i + pat.len(), s.len() as int));
        rest.len() > 0 && rest[0] == ':'
    }
}

/// First index `>= from` at which `pat` is a key of the top-level object of
/// `s`.
pub open spec fn find_top_level_key_from(s: Seq<char>, pat: Seq<char>, from: int) -> Option<int>
    decreases s.len() + 1 - from,
{
    if from < 0 || from + pat.len() > s.len() {
        None
    } else if top_level_key_at(s, pat, from) {
        Some(from)
    } else {
        find_top_level_key_from(s, pat, from + 1)
    }
}

/// Number of candidate bodies before filtering: the body itself, the body
/// closed up, then one closed-up prefix per backed-off character.
pub open spec fn raw_count(n: nat) -> nat {
    2 + if n < MAX_BACKOFF { n } else { MAX_BACKOFF as nat }
}

/// Candidate `j` before filtering out empty ones.
pub open spec fn raw_candidate(body: Seq<char>, j: int) -> Seq<char> {
    if j == 0 {
        body
    } else if j == 1 {
        closed(body)
    } else {
        closed(body.subrange(0, body.len() - (j - 1)))
    }
}

/// The filter that keeps non-empty candidates.
pub open spec fn nonempty() -> spec_fn(Seq<char>) -> bool {
    |s: Seq<char>| s.len() > 0
}

/// All raw candidates of `body`, in trial order.
pub open spec fn raw_candidates(body: Seq<char>) -> Seq<Seq<char>> {
    Seq::new(raw_count(body.len()), |j: int| raw_candidate(body, j))
}

/// The candidate bodies that a lossy parse of `body` tries, in order.
pub open spec fn lossy_candidates(body: Seq<char>) -> Seq<Seq<char>> {
    raw_candidates(body).filter(nonempty())
}

/// Candidates produced by the time the cursor reaches raw position `j`.
pub open spec fn produced(body: Seq<char>, j: int) -> Seq<Seq<char>> {
    raw_candidates(body).take(j).filter(nonempty())
}

/// Every entry of `stack` is a closer.
pub open spec fn closers_only(stack: Seq<char>) -> bool {
    forall|i: int| 0 <= i < stack.len() ==> (#[trigger] stack[i] == '}' || stack[i] == ']')
}

/// A character that no scanner state reacts to outside a string literal.
pub open spec fn inert(c: char) -> bool {
    is_ws(c) || c == ','
}

proof fn lemma_scan_concat(st: (Seq<char>, bool, bool), a: Seq<char>, b: Seq<char>)
    ensures
        scan_from(st, a + b) == scan_from(scan_from(st, a), b),
    decreases b.len(),
{
    if b.len() == 0 {
        assert(a + b =~= a);
    } else {
        assert((a + b).drop_last() =~= a + b.drop_last());
        assert((a + b).last() == b.last());
        lemma_scan_concat(st, a, b.drop_last());
    }
}

/// States reached from the start keep only closers on the stack, and are
/// escaped only inside a string.
proof fn lemma_scan_reachable(s: Seq<char>)
    ensures
        closers_only(scan(s).0),
        scan(s).2 ==> scan(s).1,
    decreases s.len(),
{
    if s.len() > 0 {
        lemma_scan_reachable(s.drop_last());
        let st = scan(s.drop_last());
        assert(closers_only(st.0));
        let next = scan_step(st, s.last());
        assert forall|i: int| 0 <= i < next.0.len() implies (#[trigger] next.0[i] == '}'
            || next.0[i] == ']') by {
            if i < st.0.len() {
                assert(st.0[i] == '}' || st.0[i] == ']');
            }
        }
    }
}

/// Inert characters change nothing outside a string and never leave one.
proof fn lemma_scan_inert(st: (Seq<char>, bool, bool), r: Seq<char>)
    requires
        forall|i: int| 0 <= i < r.len() ==> inert(#[trigger] r[i]),
        !st.1 ==> !st.2,
    ensures
        !st.1 ==> scan_from(st, r) == st,
        st.1 ==> scan_from(st, r).1,
    decreases r.len(),
{
    if r.len() > 0 {
        assert forall|i: int| 0 <= i < r.drop_last().len() implies inert(
            #[trigger] r.drop_last()[i],
        ) by {
            assert(r.drop_last()[i] == r[i]);
        }
        lemma_scan_inert(st, r.drop_last());
        assert(inert(r[r.len() - 1]));
    }
}

proof fn lemma_trim_end_split(s: Seq<char>)
    ensures
        exists|r: Seq<char>|
            s == trim_end(s) + r && forall|i: int| 0 <= i < r.len() ==> is_ws(#[trigger] r[i]),
    decreases s.len(),
{
    if s.len() > 0 && is_ws(s.last()) {
        lemma_trim_end_split(s.drop_last());
        let r0 = choose|r: Seq<char>|
            s.drop_last() == trim_end(s.drop_last()) + r && forall|i: int|
                0 <= i < r.len() ==> is_ws(#[trigger] r[i]);
        let r = r0.push(s.last());
        assert(trim_end(s) == trim_end(s.drop_last()));
        assert(s =~= s.drop_last().push(s.last()));
        assert(s =~= trim_end(s) + r);
        assert forall|i: int| 0 <= i < r.len() implies is_ws(#[trigger] r[i]) by {
            if i < r0.len() {
                assert(r[i] == r0[i]);
            }
        }
    } else {
        assert(s =~= trim_end(s) + Seq::<char>::empty());
    }
}

proof fn lemma_without_trailing_comma_split(s: Seq<char>)
    ensures
        exists|r: Seq<char>|
            s == without_trailing_comma(s) + r && forall|i: int|
                0 <= i < r.len() ==> inert(#[trigger] r[i]),
{
    lemma_trim_end_split(s);
    let t = trim_end(s);
    let r1 = choose|r: Seq<char>|
        s == trim_end(s) + r && forall|i: int| 0 <= i < r.len() ==> is_ws(#[trigger] r[i]);
    if t.len() > 0 && t.last() == ',' {
        lemma_trim_end_split(t.drop_last());
        let r2 = choose|r: Seq<char>|
            t.drop_last() == trim_end(t.drop_last()) + r && forall|i: int|
                0 <= i < r.len() ==> is_ws(#[trigger] r[i]);
        let r = r2.push(',') + r1;
        assert(t =~= t.drop_last().push(','));
        assert(s =~= without_trailing_comma(s) + r);
        assert forall|i: int| 0 <= i < r.len() implies inert(#[trigger] r[i]) by {
            if i < r2.len() {
                assert(r[i] == r2[i]);
            } else if i > r2.len() {
                assert(r[i] == r1[i - r2.len() - 1]);
            }
        }
        assert(s == without_trailing_comma(s) + r);
    } else {
        assert forall|i: int| 0 <= i < r1.len() implies inert(#[trigger] r1[i]) by {
            assert(is_ws(r1[i]));
        }
        assert(s == without_trailing_comma(s) + r1);
    }
}

proof fn lemma_close_all(stack: Seq<char>)
    requires
        closers_only(stack),
    ensures
        scan_from((stack, false, false), stack.reverse()) == (Seq::<char>::empty(), false, false),
    decreases stack.len(),
{
    if stack.len() == 0 {
        assert(stack.reverse() =~= Seq::<char>::empty());
        assert(stack =~= Seq::<char>::empty());
    } else {
        let c = stack.last();
        let rest = stack.drop_last();
        assert(c == '}' || c == ']') by {
            assert(stack[stack.len() - 1] == '}' || stack[stack.len() - 1] == ']');
        }
        assert(closers_only(rest)) by {
            assert forall|i: int| 0 <= i < rest.len() implies (#[trigger] rest[i] == '}'
                || rest[i] == ']') by {
                assert(rest[i] == stack[i]);
                assert(stack[i] == '}' || stack[i] == ']');
            }
        }
        let one = seq![c];
        assert(stack.reverse() =~= one + rest.reverse());
        lemma_scan_concat((stack, false, false), one, rest.reverse());
        assert(one.drop_last() =~= Seq::<char>::empty());
        assert(scan_from((stack, false, false), one.drop_last()) == (stack, false, false));
        assert(scan_from((stack, false, false), one) == scan_step((stack, false, false), c));
        assert(scan_step((stack, false, false), c) == (rest, false, false));
        lemma_close_all(rest);
    }
}

/// Whenever a body prefix can be closed up, the closed-up body has every
/// bracket closed and does not end inside a string literal.
pub proof fn lemma_closed_is_balanced(s: Seq<char>)
    requires
        closed(s).len() > 0,
    ensures
        scan(closed(s)) == (Seq::<char>::empty(), false, false),
{
    let st = scan(s);
    lemma_scan_reachable(s);
    let t = without_trailing_comma(s);
    lemma_without_trailing_comma_split(s);
    let r = choose|r: Seq<char>|
        s == without_trailing_comma(s) + r && forall|i: int| 0 <= i < r.len() ==> inert(#[trigger] r[i]);
    lemma_scan_concat((Seq::empty(), false, false), t, r);
    lemma_scan_reachable(t);
    lemma_scan_inert(scan(t), r);
    assert(!st.1 && !st.2);
    assert(scan(t) == st);
    lemma_scan_concat((Seq::empty(), false, false), t, st.0.reverse());
    lemma_close_all(st.0);
}

/// A body that is already balanced closes up to itself, minus a dangling
/// comma.
pub proof fn lemma_closed_balanced_body(s: Seq<char>)
    requires
        scan(s) == (Seq::<char>::empty(), false, false),
    ensures
        closed(s) == without_trailing_comma(s),
{
    assert(Seq::<char>::empty().reverse() =~= Seq::<char>::empty());
    assert(without_trailing_comma(s) + Seq::<char>::empty() =~= without_trailing_comma(s));
}

proof fn lemma_filter_prefix(s: Seq<Seq<char>>, i: int, j: int)
    requires
        0 <= i <= j <= s.len(),
    ensures
        s.take(i).filter(nonempty()).len() <= s.take(j).filter(nonempty()).len(),
        forall|k: int|
            0 <= k < s.take(i).filter(nonempty()).len() ==> s.take(j).filter(nonempty())[k]
                == #[trigger] s.take(i).filter(nonempty())[k],
    decreases j - i,
{
    if i < j {
        lemma_filter_prefix(s, i, j - 1);
        reveal(Seq::filter);
        assert(s.take(j).drop_last() =~= s.take(j - 1));
    }
}

/// The candidates a lossy parse tries: every non-empty raw candidate, in
/// order, and the body itself first.
pub proof fn lemma_lossy_candidates(body: Seq<char>)
    requires
        !all_ws(body),
    ensures
        produced(body, raw_count(body.len()) as int) == lossy_candidates(body),
        lossy_candidates(body).len() > 0,
        lossy_candidates(body)[0] == body,
{
    assert(raw_candidates(body).take(raw_count(body.len()) as int) =~= raw_candidates(body));
    let one = raw_candidates(body).take(1);
    assert(body.len() > 0);
    reveal_with_fuel(Seq::filter, 2);
    assert(one.drop_last() =~= Seq::<Seq<char>>::empty());
    assert(one.filter(nonempty()) =~= seq![body]);
    assert(one.filter(nonempty())[0] == body);
    lemma_filter_prefix(raw_candidates(body), 1, raw_count(body.len()) as int);
}

/// A lossy parse backs off one character at a time, up to 4096 characters:
/// besides the body itself and the body closed up, it tries the closed-up
/// prefix left after backing off each count `j` from 1 to the smaller of the
/// body's length and 4096, in that order; every one of those that is not
/// empty is among the candidates handed out.
pub proof fn lemma_backoff_candidates(body: Seq<char>)
    ensures
        raw_candidates(body).len() == 2 + (if body.len() < 4096 { body.len() as int } else { 4096 }),
        raw_candidates(body)[0] == body,
        raw_candidates(body)[1] == closed(body),
        forall|j: int|
            1 <= j <= body.len() && j <= 4096 ==> #[trigger] raw_candidates(body)[j + 1] == closed(
                body.subrange(0, body.len() - j),
            ),
        forall|j: int|
            1 <= j <= body.len() && j <= 4096 && closed(body.subrange(0, body.len() - j)).len() > 0
                ==> #[trigger] lossy_candidates(body).contains(
                closed(body.subrange(0, body.len() - j)),
            ),
{
    let raw = raw_candidates(body);
    assert forall|j: int|
        1 <= j <= body.len() && j <= 4096 && closed(body.subrange(0, body.len() - j)).len()
            > 0 implies #[trigger] lossy_candidates(body).contains(
        closed(body.subrange(0, body.len() - j)),
    ) by {
        assert(raw[j + 1] == closed(body.subrange(0, body.len() - j)));
        raw.lemma_filter_contains(nonempty(), j + 1);
    }
}

/// Drop a dangling comma (and surrounding trailing whitespace) from
/// `body[..end]`; returns the length of what is kept.
pub fn trim_trailing_comma_len(body: &[char], end: usize) -> (k: usize)
    requires
        end <= body@.len(),
    ensures
        k <= end,
        without_trailing_comma(body@.subrange(0, end as int)) == body@.subrange(0, k as int),
{
    let t = trim_end_len(body, end);
    if t > 0 && body[t - 1] == ',' {
        let k = trim_end_len(body, t - 1);
        assert(body@.subrange(0, t as int).drop_last() =~= body@.subrange(0, t - 1));
        k
    } else {
        t
    }
}

/// Drop a dangling comma right before the end of `body`, trimming trailing
/// whitespace around it.
pub fn trim_trailing_comma(body: &str) -> (out: String)
    ensures
        out@ == without_trailing_comma(body@),
{
    let chars = chars_of(body);
    let k = trim_trailing_comma_len(&chars, chars.len());
    assert(chars@.subrange(0, chars@.len() as int) =~= chars@);
    let mut kept: Vec<char> = Vec::new();
    let mut i: usize = 0;
    while i < k
        invariant
            k <= chars@.len(),
            i <= k,
            kept@ == chars@.subrange(0, i as int),
        decreases k - i,
    {
        kept.push(chars[i]);
        i = i + 1;
        assert(kept@ =~= chars@.subrange(0, i as int));
    }
    string_from_chars(&kept)
}

/// Does `pat` occur in `s` at index `i`?
fn occurs_at(s: &[char], pat: &[char], i: usize) -> (b: bool)
    requires
        i + pat@.len() <= s@.len(),
    ensures
        b == (s@.subrange(i as int, i + pat@.len()) == pat@),
{
    let n = s.len();
    let mut j: usize = 0;
    while j < pat.len()
        invariant
            n == s@.len(),
            i + pat@.len() <= s@.len(),
            j <= pat@.len(),
            forall|k: int| 0 <= k < j ==> s@[i + k] == pat@[k],
        decreases pat@.len() - j,
    {
        if s[i + j] != pat[j] {
            assert(s@.subrange(i as int, i + pat@.len())[j as int] != pat@[j as int]);
            return false;
        }
        j = j + 1;
    }
    assert(s@.subrange(i as int, i + pat@.len()) =~= pat@);
    true
}

/// First index at which `pat` is a key of the top-level object of `s` (see
/// [`top_level_key_at`]).
pub fn find_top_level_key(s: &[char], pat: &[char]) -> (r: Option<usize>)
    ensures
        r matches Some(i) ==> find_top_level_key_from(s@, pat@, 0) == Some(i as int) && i
            + pat@.len() <= s@.len(),
        r is None ==> find_top_level_key_from(s@, pat@, 0) is None,
{
    let n = s.len();
    if pat.len() > n {
        return None;
    }
    let last = n - pat.len();
    let mut stack: Vec<char> = Vec::new();
    let mut in_str = false;
    let mut escape = false;
    let mut i: usize = 0;
    assert(s@.subrange(0, 0) =~= Seq::<char>::empty());
    while i <= last
        invariant
            last + pat@.len() == s@.len(),
            n == s@.len(),
            i <= last + 1,
            (stack@, in_str, escape) == scan(s@.subrange(0, i as int)),
            find_top_level_key_from(s@, pat@, 0) == find_top_level_key_from(s@, pat@, i as int),
        decreases last + 1 - i,
    {
        let top = !in_str && !escape && stack.len() == 1 && stack[0] == '}';
        proof {
            if stack@.len() == 1 && stack@[0] == '}' {
                assert(stack@ =~= seq!['}']);
            }
        }
        if top && occurs_at(s, pat, i) {
            let k = trim_start_from(s, i + pat.len());
            if k < n && s[k] == ':' {
                return Some(i);
            }
            assert(!top_level_key_at(s@, pat@, i as int)) by {
                let rest = s@.subrange(k as int, n as int);
                if rest.len() > 0 {
                    assert(rest[0] == s@[k as int]);
                }
            }
        }
        if i == last {
            assert(find_top_level_key_from(s@, pat@, i + 1) == None::<int>);
            return None;
        }
        let c = s[i];
        assert(s@.subrange(0, i + 1).drop_last() =~= s@.subrange(0, i as int));
        assert(s@.subrange(0, i + 1).last() == c);
        if in_str {
            if escape {
                escape = false;
            } else if c == '\\' {
                escape = true;
            } else if c == '"' {
                in_str = false;
            }
        } else if c == '"' {
            in_str = true;
        } else if c == '{' {
            stack.push('}');
        } else if c == '[' {
            stack.push(']');
        } else if c == '}' || c == ']' {
            stack.pop();
        }
        i = i + 1;
    }
    None
}

/// Close up `body[..end]`: see [`closed`].
pub fn close_prefix(body: &[char], end: usize) -> (out: Vec<char>)
    requires
        end <= body@.len(),
    ensures
        out@ == closed(body@.subrange(0, end as int)),
{
    let ghost pre = body@.subrange(0, end as int);
    let mut stack: Vec<char> = Vec::new();
    let mut in_str = false;
    let mut escape = false;
    let mut i: usize = 0;
    assert(pre.subrange(0, 0) =~= Seq::<char>::empty());
    while i < end
        invariant
            end <= body@.len(),
            pre == body@.subrange(0, end as int),
            i <= end,
            (stack@, in_str, escape) == scan(pre.subrange(0, i as int)),
        decreases end - i,
    {
        let c = body[i];
        assert(pre.subrange(0, i + 1).drop_last() =~= pre.subrange(0, i as int));
        assert(pre.subrange(0, i + 1).last() == c);
        if in_str {
            if escape {
                escape = false;
            } else if c == '\\' {
                escape = true;
            } else if c == '"' {
                in_str = false;
            }
        } else if c == '"' {
            in_str = true;
        } else if c == '{' {
            stack.push('}');
        } else if c == '[' {
            stack.push(']');
        } else if c == '}' || c == ']' {
            stack.pop();
        }
        i = i + 1;
    }
    assert(pre.subrange(0, end as int) =~= pre);
    if in_str || escape {
        return Vec::new();
    }
    let k = trim_trailing_comma_len(body, end);
    let mut out: Vec<char> = Vec::new();
    let mut j: usize = 0;
    while j < k
        invariant
            k <= end <= body@.len(),
            j <= k,
            out@ == body@.subrange(0, j as int),
        decreases k - j,
    {
        out.push(body[j]);
        j = j + 1;
        assert(out@ =~= body@.subrange(0, j as int));
    }
    let ghost kept = out@;
    let mut m = stack.len();
    while m > 0
        invariant
            m <= stack@.len(),
            out@ == kept + stack@.subrange(m as int, stack@.len() as int).reverse(),
        decreases m,
    {
        m = m - 1;
        out.push(stack[m]);
        assert(stack@.subrange(m as int, stack@.len() as int).reverse() =~= stack@.subrange(
            m + 1,
            stack@.len() as int,
        ).reverse().push(stack@[m as int]));
    }
    assert(stack@.subrange(0, stack@.len() as int) =~= stack@);
    out
}

/// Heuristically close an in-progress JSON body: track bracket depth while
/// skipping string contents, drop a dangling comma, then append the matching
/// closers. Returns an empty string when the body ends inside a string.
pub fn close_open(body: &str) -> (out: String)
    ensures
        out@ == closed(body@),
{
    let chars = chars_of(body);
    let v = close_prefix(&chars, chars.len());
    assert(chars@.subrange(0, chars@.len() as int) =~= chars@);
    string_from_chars(&v)
}

/// Where a lossy parse of a body stands: the body and the next raw
/// candidate position.
pub struct LossyCursor {
    body: Vec<char>,
    next: usize,
}

impl LossyCursor {
    /// The body being recovered.
    pub closed spec fn body(&self) -> Seq<char> {
        self.body@
    }

    /// The next raw candidate position.
    pub closed spec fn position(&self) -> int {
        self.next as int
    }

    /// Start recovering `body`. A body that is empty or all whitespace has
    /// nothing to recover.
    pub fn start(body: &str) -> (c: Option<LossyCursor>)
        ensures
            c is None <==> all_ws(body@),
            c matches Some(c) ==> c.body() == body@ && c.position() == 0,
    {
        let chars = chars_of(body);
        if is_blank(&chars) {
            None
        } else {
            Some(LossyCursor { body: chars, next: 0 })
        }
    }

    /// The next candidate body to try, if any is left.
    pub fn next_candidate(&mut self) -> (r: Option<String>)
        ensures
            final(self).body() == old(self).body(),
            old(self).position() <= final(self).position(),
            r matches Some(s) ==> produced(final(self).body(), final(self).position())
                == produced(old(self).body(), old(self).position()).push(s@),
            r is None ==> produced(final(self).body(), final(self).position())
                == produced(old(self).body(), old(self).position())
                && final(self).position() >= raw_count(old(self).body().len()),
            old(self).position() == 0 && !all_ws(old(self).body()) ==> (r matches Some(s) && s@
                == old(self).body()),
    {
        let n = self.body.len();
        let count: usize = 2 + if n < MAX_BACKOFF { n } else { MAX_BACKOFF };
        let ghost b = self.body@;
        let ghost start = self.next as int;
        while self.next < count
            invariant
                self.body@ == b,
                b == old(self).body@,
                start == old(self).next,
                n == b.len(),
                count == raw_count(b.len()),
                start <= self.next,
                produced(b, self.next as int) == produced(b, start),
                start == 0 && !all_ws(b) ==> self.next == 0,
            decreases count - self.next,
        {
            let j = self.next;
            let cand = if j == 0 {
                let mut copy: Vec<char> = Vec::new();
                let mut i: usize = 0;
                while i < n
                    invariant
                        n == self.body@.len(),
                        i <= n,
                        copy@ == self.body@.subrange(0, i as int),
                    decreases n - i,
                {
                    copy.push(self.body[i]);
                    i = i + 1;
                    assert(copy@ =~= self.body@.subrange(0, i as int));
                }
                assert(self.body@.subrange(0, n as int) =~= self.body@);
                copy
            } else if j == 1 {
                let v = close_prefix(&self.body, n);
                assert(b.subrange(0, n as int) =~= b);
                v
            } else {
                close_prefix(&self.body, n - (j - 1))
            };
            assert(cand@ == raw_candidate(b, j as int));
            proof {
                reveal(Seq::filter);
                assert(raw_candidates(b).take(j + 1).drop_last() =~= raw_candidates(b).take(
                    j as int,
                ));
                assert(raw_candidates(b).take(j + 1).last() == cand@);
            }
            self.next = j + 1;
            proof {
                if j == 0 && !all_ws(b) {
                    assert(cand@ == b);
                    assert(b.len() > 0);
                }
            }
            if cand.len() > 0 {
                return Some(string_from_chars(&cand));
            }
        }
        None
    }
}

} // verus!
