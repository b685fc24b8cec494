use std::collections::VecDeque;
use vstd::prelude::*;
use vstd::std_specs::vecdeque::VecDequeAdditionalSpecFns;
use crate::tokens::{
    blank_char, blank_end_char, break_char, end_char, flow_char, is_blank, is_blank_end, is_break,
    is_break_end, is_end, is_flow, CharacterPosition, LexErr, Lexeme, YamlToken, YamlTokenType,
};

verus! {

/// The character at `k` of a source that goes on with the end sentinel after its
/// last character.
pub open spec fn padded(s: Seq<char>, k: int) -> char {
    if 0 <= k < s.len() {
        s[k]
    } else {
        '\0'
    }
}

/// The line (from 1) and column (from 0) after the first `k` characters of `s`. A
/// `\n`, or a `\r` that no `\n` follows, ends a line.
pub open spec fn line_col(s: Seq<char>, k: int) -> (int, int)
    decreases k,
{
    if k <= 0 {
        (1, 0)
    } else {
        let lc = line_col(s, k - 1);
        let c = padded(s, k - 1);
        if c == '\n' || (c == '\r' && padded(s, k) != '\n') {
            (lc.0 + 1, 0)
        } else {
            (lc.0, lc.1 + 1)
        }
    }
}

/// A position stands after the first `k` characters of `s`.
pub open spec fn at_offset(p: CharacterPosition, s: Seq<char>, k: int) -> bool {
    &&& p.spec_index() == k
    &&& p.line == line_col(s, k).0
    &&& p.column == line_col(s, k).1
}

/// A plain scalar stops at `k`: at a blank, a break or the end, or at a `:` that is
/// followed by one of those.
pub open spec fn scalar_stop(s: Seq<char>, k: int) -> bool {
    blank_end_char(padded(s, k)) || (padded(s, k) == ':' && blank_end_char(padded(s, k + 1)))
}

/// The number of characters of the plain scalar text that starts at `k`.
pub open spec fn plain_len(s: Seq<char>, k: int) -> nat
    decreases s.len() - k,
{
    if k < 0 || k >= s.len() || scalar_stop(s, k) {
        0
    } else {
        1 + plain_len(s, k + 1)
    }
}

proof fn lemma_plain_len_bound(s: Seq<char>, k: int)
    requires
        0 <= k <= s.len(),
    ensures
        k + plain_len(s, k) <= s.len(),
    decreases s.len() - k,
{
    if k < s.len() && !scalar_stop(s, k) {
        lemma_plain_len_bound(s, k + 1);
    }
}

/// The first place at or after `k` that holds neither a blank nor a line break.
pub open spec fn ws_end(s: Seq<char>, k: int) -> int
    decreases s.len() - k,
{
    if 0 <= k < s.len() && (blank_char(s[k]) || break_char(s[k])) {
        ws_end(s, k + 1)
    } else {
        k
    }
}

/// Where scanning goes on after a key separator at `k`: past the `:` and the
/// character after it, unless that is the end.
pub open spec fn after_separator(s: Seq<char>, k: int) -> int {
    if end_char(padded(s, k + 1)) {
        k + 1
    } else {
        k + 2
    }
}

/// The first place at or after `k` that is not a blank, a line break or part of a
/// comment (from `#` up to the end of its line): where the next token begins.
pub open spec fn token_start(s: Seq<char>, k: int, in_comment: bool) -> int
    decreases s.len() - k, (if in_comment {
        1int
    } else {
        0int
    }),
{
    if 0 <= k < s.len() {
        if in_comment {
            if break_char(s[k]) || end_char(s[k]) {
                token_start(s, k, false)
            } else {
                token_start(s, k + 1, true)
            }
        } else if blank_char(s[k]) || break_char(s[k]) {
            token_start(s, k + 1, false)
        } else if s[k] == '#' {
            token_start(s, k + 1, true)
        } else {
            k
        }
    } else {
        k
    }
}

pub open spec fn scan_start(s: Seq<char>, k: int) -> int {
    token_start(s, k, false)
}

/// Where a key separator must stand for the scalar that begins at `k` to be a key.
pub open spec fn key_sep(s: Seq<char>, k: int) -> int {
    scan_start(s, k + plain_len(s, k))
}

/// The text of the value after a key separator at `sep`: empty where a comment
/// follows at once.
pub open spec fn value_text(s: Seq<char>, sep: int) -> Seq<char> {
    let vs = after_separator(s, sep);
    if padded(s, vs) == '#' {
        Seq::empty()
    } else {
        s.subrange(vs, vs + plain_len(s, vs))
    }
}

/// Where scanning stands after the value that follows a key separator at `sep`.
pub open spec fn value_scan_end(s: Seq<char>, sep: int) -> int {
    let vs = after_separator(s, sep);
    if padded(s, vs) == '#' {
        vs
    } else {
        ws_end(s, vs + plain_len(s, vs))
    }
}

/// From `k` on, the text is nothing but `key: value` lines, blank lines and
/// comments: each token that starts there is a key with a separator after it, up to
/// the end.
pub open spec fn kv_doc(s: Seq<char>, k: int) -> bool
    decreases s.len() - k,
{
    let t = scan_start(s, k);
    if end_char(padded(s, t)) {
        true
    } else {
        let sep = key_sep(s, t);
        &&& plain_len(s, t) >= 1
        &&& separator_at(s, sep, false)
        &&& k < value_scan_end(s, sep) <= s.len()
        &&& kv_doc(s, value_scan_end(s, sep))
    }
}

/// From `k` on, the text runs through `key: value` lines, blank lines and comments
/// into a token that cannot stand: a `:` with no key before it, or a scalar with
/// no key separator after it.
pub open spec fn kv_doc_fails(s: Seq<char>, k: int) -> bool
    decreases s.len() - k,
{
    let t = scan_start(s, k);
    let sep = key_sep(s, t);
    if end_char(padded(s, t)) {
        false
    } else if separator_at(s, t, false) || !separator_at(s, sep, false) {
        true
    } else if k < value_scan_end(s, sep) <= s.len() {
        kv_doc_fails(s, value_scan_end(s, sep))
    } else {
        false
    }
}

/// The tokens that such a text stands for from `k` on, and the end.
pub open spec fn kv_doc_lexemes(s: Seq<char>, k: int) -> Seq<Lexeme>
    decreases s.len() - k,
{
    let t = scan_start(s, k);
    let sep = key_sep(s, t);
    if !end_char(padded(s, t)) && k < value_scan_end(s, sep) <= s.len() {
        seq![
            Lexeme::Key,
            Lexeme::Scalar(s.subrange(t, t + plain_len(s, t))),
            Lexeme::Value,
            Lexeme::Scalar(value_text(s, sep)),
        ] + kv_doc_lexemes(s, value_scan_end(s, sep))
    } else {
        seq![Lexeme::End]
    }
}

/// The error for text that begins after the first `k` characters of `s` and cannot
/// begin a token.
pub open spec fn unknown_at(r: LexErr, text: Seq<char>, s: Seq<char>, k: int) -> bool {
    match r {
        LexErr::UnknownToken(t, p) => t@ == text && at_offset(p, s, k),
    }
}

/// The error for text that begins at `at` and cannot begin a token.
pub open spec fn unknown_with(r: LexErr, text: Seq<char>, at: CharacterPosition) -> bool {
    match r {
        LexErr::UnknownToken(t, p) => t@ == text && p == at,
    }
}

/// Where the end of the stream stands when the source is used up after `k`
/// characters: at column 0 of a fresh line.
pub open spec fn end_at(p: CharacterPosition, s: Seq<char>, k: int) -> bool {
    &&& p.spec_index() == k
    &&& p.column == 0
    &&& p.line == line_col(s, k).0 + (if line_col(s, k).1 != 0 {
        1int
    } else {
        0int
    })
}

/// What each token of a sequence is.
pub open spec fn lexemes(s: Seq<YamlToken>) -> Seq<Lexeme> {
    s.map_values(|t: YamlToken| t.1@)
}

/// The number of line breaks among the characters from `a` up to `b`, a CRLF
/// counting as one.
pub open spec fn breaks_in(s: Seq<char>, a: int, b: int) -> nat
    decreases b - a,
{
    if b <= a {
        0
    } else {
        let c = padded(s, b - 1);
        breaks_in(s, a, b - 1) + (if c == '\n' || (c == '\r' && padded(s, b) != '\n') {
            1nat
        } else {
            0nat
        })
    }
}

/// What the line breaks between two lines of one scalar fold to: one space for no
/// break or a single one, as many newlines as there are breaks otherwise.
pub open spec fn folded(n: nat) -> Seq<char> {
    if n <= 1 {
        seq![' ']
    } else {
        Seq::new(n, |i: int| '\n')
    }
}

/// The text of a plain scalar that starts at `k` inside a flow collection: it goes on
/// over blanks and line breaks while the next line is indented to at least
/// `indent`, and the breaks between its lines fold.
pub open spec fn flow_scalar_text(s: Seq<char>, k: int, indent: int) -> Seq<char>
    decreases s.len() - k,
{
    let e = k + plain_len(s, k);
    let w = ws_end(s, e);
    if padded(s, k) == '#' {
        Seq::empty()
    } else if !(blank_char(padded(s, e)) || break_char(padded(s, e))) || !(k < w <= s.len()) || (
    indent > 0 && line_col(s, w).1 < indent) {
        s.subrange(k, e)
    } else {
        s.subrange(k, e) + folded(breaks_in(s, e, w)) + flow_scalar_text(s, w, indent)
    }
}

/// A key/value separator stands at `k`: a `:` followed by a blank, a break or the
/// end, or, inside a flow collection, by one of its structural characters.
pub open spec fn separator_at(s: Seq<char>, k: int, in_flow: bool) -> bool {
    padded(s, k) == ':' && (blank_end_char(padded(s, k + 1)) || (in_flow && flow_char(
        padded(s, k + 1),
    )))
}

/// A token holds no raw line break: a scalar's text has none.
pub open spec fn no_raw_break(l: Lexeme) -> bool {
    match l {
        Lexeme::Scalar(t) => forall|i: int| 0 <= i < t.len() ==> !break_char(#[trigger] t[i]),
        _ => true,
    }
}

/// No token of the sequence holds a raw line break.
pub open spec fn breakless(s: Seq<YamlToken>) -> bool {
    forall|i: int| 0 <= i < s.len() ==> no_raw_break(#[trigger] s[i].1@)
}

proof fn lemma_plain_text(s: Seq<char>, k: int)
    requires
        0 <= k,
    ensures
        forall|i: int| k <= i < k + plain_len(s, k) ==> !blank_end_char(#[trigger] padded(s, i)),
    decreases s.len() - k,
{
    if k < s.len() && !scalar_stop(s, k) {
        lemma_plain_text(s, k + 1);
    }
}

proof fn lemma_breakless_push(all: Seq<YamlToken>, t: YamlToken)
    requires
        breakless(all),
        no_raw_break(t.1@),
    ensures
        breakless(all.push(t)),
{
    assert forall|i: int| 0 <= i < all.push(t).len() implies no_raw_break(
        #[trigger] all.push(t)[i].1@,
    ) by {
        if i < all.len() {
            assert(all.push(t)[i] == all[i]);
        }
    }
}

/// Positions never go back along the sequence.
pub open spec fn monotone(s: Seq<YamlToken>) -> bool {
    forall|i: int, j: int|
        0 <= i <= j < s.len() ==> #[trigger] s[i].0.spec_index() <= #[trigger] s[j].0.spec_index()
}

/// A stream starts with one `Start`, has no other, and holds an `End` only as its
/// last token.
pub open spec fn framed(s: Seq<YamlToken>) -> bool {
    &&& (s.len() > 0 ==> s[0].1 is Start)
    &&& forall|i: int| 0 < i < s.len() ==> !(#[trigger] s[i].1 is Start)
    &&& forall|i: int| 0 <= i < s.len() - 1 ==> !(#[trigger] s[i].1 is End)
}

/// Blanks and breaks that a scalar leaves behind are skipped before the next token
/// anyway.
proof fn lemma_token_start_ws(s: Seq<char>, k: int)
    requires
        0 <= k,
    ensures
        scan_start(s, ws_end(s, k)) == scan_start(s, k),
    decreases s.len() - k,
{
    if 0 <= k < s.len() && (blank_char(s[k]) || break_char(s[k])) {
        lemma_token_start_ws(s, k + 1);
    }
}

proof fn lemma_lexemes_concat(a: Seq<YamlToken>, b: Seq<YamlToken>)
    ensures
        lexemes(a + b) == lexemes(a) + lexemes(b),
{
    assert(lexemes(a + b) =~= lexemes(a) + lexemes(b));
}

/// Appending a token that is neither `Start` (but as the first) nor `End`, at a
/// position no earlier than any before it.
proof fn lemma_push_token(all: Seq<YamlToken>, t: YamlToken)
    requires
        monotone(all),
        framed(all),
        forall|i: int| 0 <= i < all.len() ==> #[trigger] all[i].0.spec_index() <= t.0.spec_index(),
        forall|i: int| 0 <= i < all.len() ==> !(#[trigger] all[i].1 is End),
        all.len() == 0 <==> t.1 is Start,
    ensures
        monotone(all.push(t)),
        framed(all.push(t)),
{
    let s = all.push(t);
    assert forall|i: int, j: int| 0 <= i <= j < s.len() implies #[trigger] s[i].0.spec_index()
        <= #[trigger] s[j].0.spec_index() by {
        if j < all.len() {
            assert(s[i] == all[i] && s[j] == all[j]);
        }
    }
    assert forall|i: int| 0 <= i < s.len() - 1 implies !(#[trigger] s[i].1 is End) by {
        assert(s[i] == all[i]);
    }
    assert forall|i: int| 0 < i < s.len() implies !(#[trigger] s[i].1 is Start) by {
        if i < all.len() {
            assert(s[i] == all[i]);
        }
    }
}

/// Taking the last token away keeps the stream in order and framed.
proof fn lemma_drop_last_token(all: Seq<YamlToken>)
    requires
        monotone(all),
        framed(all),
        all.len() > 0,
    ensures
        monotone(all.drop_last()),
        framed(all.drop_last()),
{
    let s = all.drop_last();
    assert forall|i: int, j: int| 0 <= i <= j < s.len() implies #[trigger] s[i].0.spec_index()
        <= #[trigger] s[j].0.spec_index() by {
        assert(s[i] == all[i] && s[j] == all[j]);
    }
    assert forall|i: int| 0 < i < s.len() implies !(#[trigger] s[i].1 is Start) by {
        assert(s[i] == all[i]);
    }
    assert forall|i: int| 0 <= i < s.len() - 1 implies !(#[trigger] s[i].1 is End) by {
        assert(s[i] == all[i]);
    }
    if s.len() > 0 {
        assert(s[0] == all[0]);
    }
}

/// Inserting a `Key` just before the token whose position it shares.
proof fn lemma_insert_key(all: Seq<YamlToken>, k: int, key: YamlToken)
    requires
        monotone(all),
        framed(all),
        1 <= k < all.len(),
        key.0.spec_index() == all[k].0.spec_index(),
        key.1 is Key,
    ensures
        monotone(all.insert(k, key)),
        framed(all.insert(k, key)),
        forall|i: int| 0 <= i < all.len() + 1 ==> (#[trigger] all.insert(k, key)[i] == key || exists|j: int| 0 <= j < all.len() && all[j] == all.insert(k, key)[i]),
{
    let s = all.insert(k, key);
    assert forall|i: int| 0 <= i < s.len() implies (#[trigger] s[i] == key || exists|j: int| 0 <= j < all.len() && all[j] == s[i]) by {
        if i < k {
            assert(all[i] == s[i]);
        } else if i > k {
            assert(all[i - 1] == s[i]);
        }
    }
    assert forall|i: int, j: int| 0 <= i <= j < s.len() implies #[trigger] s[i].0.spec_index()
        <= #[trigger] s[j].0.spec_index() by {
        let a = if i < k { i } else if i == k { k } else { i - 1 };
        let b = if j < k { j } else if j == k { k } else { j - 1 };
        assert(s[i].0.spec_index() == all[a].0.spec_index());
        assert(s[j].0.spec_index() == all[b].0.spec_index());
        assert(all[a].0.spec_index() <= all[b].0.spec_index());
    }
    assert forall|i: int| 0 < i < s.len() implies !(#[trigger] s[i].1 is Start) by {
        if i < k {
            assert(s[i] == all[i]);
        } else if i > k {
            assert(s[i] == all[i - 1]);
        }
    }
    assert forall|i: int| 0 <= i < s.len() - 1 implies !(#[trigger] s[i].1 is End) by {
        if i < k {
            assert(s[i] == all[i]);
        } else if i > k {
            assert(s[i] == all[i - 1]);
        }
    }
}

/// Relies on String::push: appends one character to the string.
#[verifier::external_body]
fn push_char(s: &mut String, c: char)
    ensures
        final(s)@ == old(s)@.push(c),
{
    s.push(c)
}

/// Folds the line breaks between two lines of one scalar: no break or a single one
/// becomes one space, several become as many newlines.
pub fn fold_breaks(scalar: &mut String, breaks: usize)
    ensures
        breaks <= 1 ==> final(scalar)@ == old(scalar)@.push(' '),
        breaks > 1 ==> final(scalar)@ == old(scalar)@ + Seq::new(breaks as nat, |i: int| '\n'),
{
    if breaks <= 1 {
        push_char(scalar, ' ');
    } else {
        let mut i: usize = 0;
        while i < breaks
            invariant
                i <= breaks,
                scalar@ == old(scalar)@ + Seq::new(i as nat, |j: int| '\n'),
            decreases breaks - i,
        {
            push_char(scalar, '\n');
            i = i + 1;
            assert(scalar@ =~= old(scalar)@ + Seq::new(i as nat, |j: int| '\n'));
        }
    }
}

/// Inserts `item` before the element `position` steps from the end of `v` (0: before
/// the last), or at the front where `v` is shorter.
pub fn insert_from_end<T>(v: &mut VecDeque<T>, position: usize, item: T)
    requires
        position < usize::MAX,
    ensures
        final(v)@ == old(v)@.insert(
            if old(v).len() > position {
                old(v).len() - position - 1
            } else {
                0
            },
            item,
        ),
{
    let len = v.len();
    let insert_idx = if len > position {
        len - position - 1
    } else {
        0
    };
    v.insert(insert_idx, item);
}

/// The scanner. It owns its source, a small window of characters read ahead, the
/// tokens decided but not yet handed out, and the indentation and flow state.
pub struct Lexer {
    /// Source of characters
    reader: Vec<char>,
    /// How many characters of the source went into the window
    read: usize,
    /// Tokens that have been decided and wait to be handed out
    tokens: VecDeque<YamlToken>,
    /// Characters read ahead of the current position
    buffer: VecDeque<char>,
    /// Indentation of the current block; negative while none is known
    curr_indent: isize,
    /// How deep the scanner is inside flow collections; no token opens one yet
    flow_level: u8,
    /// The error that stopped the scan
    error: Option<LexErr>,
    stream_started: bool,
    stream_ended: bool,
    current_position: CharacterPosition,
    /// Whether a token waits to be handed out
    token_available: bool,
    /// Whether the `End` token was decided
    end_queued: Ghost<bool>,
    /// The tokens handed out so far
    emitted: Ghost<Seq<YamlToken>>,
}

pub type LexResult = Result<(), LexErr>;

impl Lexer {
    pub closed spec fn source(&self) -> Seq<char> {
        self.reader@
    }

    /// The tokens handed out so far, in order.
    pub closed spec fn emitted(&self) -> Seq<YamlToken> {
        self.emitted@
    }

    /// The tokens decided and not yet handed out.
    pub closed spec fn queued(&self) -> Seq<YamlToken> {
        self.tokens@
    }

    /// The indentation of the current block; below zero while none is known.
    pub closed spec fn indent(&self) -> int {
        self.curr_indent as int
    }

    pub closed spec fn has_started(&self) -> bool {
        self.stream_started
    }

    pub closed spec fn has_ended(&self) -> bool {
        self.stream_ended
    }

    pub closed spec fn failure(&self) -> Option<LexErr> {
        self.error
    }

    pub closed spec fn position(&self) -> CharacterPosition {
        self.current_position
    }

    pub closed spec fn consumed(&self) -> int {
        self.current_position.spec_index() as int
    }

    /// Every token produced so far, handed out or not.
    pub closed spec fn produced(&self) -> Seq<YamlToken> {
        self.emitted@ + self.tokens@
    }

    /// A bound on the work left: it falls with every token handed out.
    pub closed spec fn potential(&self) -> nat {
        (5 * (self.reader.len() - self.consumed()) + self.tokens.len() + (if self.stream_started {
            0int
        } else {
            10int
        }) + (if self.end_queued@ {
            0int
        } else {
            3int
        })) as nat
    }

    /// The state of the scanner as it stands inside a scan.
    closed spec fn inner_wf(&self) -> bool {
        let idx = self.consumed();
        let all = self.produced();
        &&& self.reader.len() < usize::MAX
        &&& 0 <= idx <= self.reader.len()
        &&& self.read <= self.reader.len()
        &&& (if idx + self.buffer.len() <= self.reader.len() {
            self.read == idx + self.buffer.len()
        } else {
            self.read == self.reader.len()
        })
        &&& self.buffer.len() <= 4
        &&& forall|i: int|
            0 <= i < self.buffer.len() ==> #[trigger] self.buffer[i] == padded(
                self.reader@,
                idx + i,
            )
        &&& self.current_position.line >= 1
        &&& self.current_position.line + self.current_position.column <= idx + 1
        &&& self.curr_indent < isize::MAX
        &&& (!self.end_queued@ ==> at_offset(self.current_position, self.reader@, idx))
        &&& monotone(all)
        &&& breakless(all)
        &&& forall|i: int| 0 <= i < all.len() ==> #[trigger] all[i].0.spec_index() <= idx
        &&& framed(all)
        &&& (self.stream_started <==> all.len() > 0)
        &&& (self.end_queued@ ==> all.len() > 0 && all.last().1 is End)
        &&& (!self.end_queued@ ==> forall|i: int| 0 <= i < all.len() ==> !(#[trigger] all[i].1 is End))
        &&& (self.end_queued@ && self.tokens.len() == 0 ==> self.stream_ended)
        &&& (self.stream_ended ==> self.end_queued@ && self.tokens.len() == 0)
    }

    /// The state of the scanner between two pulls.
    pub closed spec fn wf(&self) -> bool {
        &&& self.inner_wf()
        &&& self.flow_level == 0
        &&& (self.token_available <==> self.tokens.len() > 0)
    }

    /// Only the reading state (the window and the position) may differ.
    closed spec fn same_but_reading(&self, o: &Lexer) -> bool {
        &&& self.reader == o.reader
        &&& self.tokens == o.tokens
        &&& self.curr_indent == o.curr_indent
        &&& self.flow_level == o.flow_level
        &&& self.error == o.error
        &&& self.stream_started == o.stream_started
        &&& self.stream_ended == o.stream_ended
        &&& self.token_available == o.token_available
        &&& self.end_queued == o.end_queued
        &&& self.emitted == o.emitted
    }

    /// A scanner over the given characters. A `'\0'` in them ends the stream.
    pub fn new(reader: Vec<char>) -> (r: Lexer)
        requires
            reader@.len() < usize::MAX,
        ensures
            r.wf(),
            r.source() == reader@,
            r.emitted() == Seq::<YamlToken>::empty(),
            r.queued() == Seq::<YamlToken>::empty(),
            !r.has_started(),
            !r.has_ended(),
            r.failure() is None,
            r.consumed() == 0,
            r.position().spec_index() == 0,
            r.position().line == 1,
            r.position().column == 0,
            r.indent() < 0,
    {
        Lexer {
            reader,
            read: 0,
            buffer: VecDeque::new(),
            tokens: VecDeque::new(),
            error: None,
            stream_ended: false,
            stream_started: false,
            current_position: CharacterPosition::default(),
            curr_indent: -1,
            flow_level: 0,
            token_available: false,
            end_queued: Ghost(false),
            emitted: Ghost(Seq::empty()),
        }
    }

    /// The number of tokens decided and not yet handed out.
    pub fn queue_len(&self) -> (r: usize)
        ensures
            r == self.queued().len(),
    {
        self.tokens.len()
    }

    /// The error that stopped the scan, if one did.
    pub fn error(&self) -> (r: &Option<LexErr>)
        ensures
            *r == self.failure(),
    {
        &self.error
    }

    /// Hands out the next token, or `None` once the stream has ended or the scan has
    /// failed; a failure is recorded and kept, and from then on every pull is `None`.
    pub fn next(&mut self) -> (r: Option<YamlToken>)
        requires
            old(self).wf(),
        ensures
            final(self).wf(),
            final(self).source() == old(self).source(),
            (old(self).has_ended() || old(self).failure() is Some) ==> r is None
                && *final(self) == *old(self),
            r is Some ==> old(self).failure() is None && final(self).failure() is None
                && final(self).emitted() == old(self).emitted().push(r->Some_0)
                && final(self).potential() < old(self).potential(),
            r is None ==> final(self).emitted() == old(self).emitted() && (final(self).has_ended()
                || final(self).failure() is Some),
            (old(self).has_started() || r is Some) ==> final(self).has_started(),
            r is Some ==> (final(self).has_ended() <==> r->Some_0.1 is End),
            r is Some ==> no_raw_break(r->Some_0.1@),
            old(self).failure() is None && !old(self).has_started() ==> r is Some
                && r->Some_0.1 is Start && r->Some_0.0 == old(self).position()
                && final(self).queued().len() == 0 && final(self).consumed() == old(self).consumed(),
            old(self).failure() is None && old(self).queued().len() > 0 ==> r == Some(
                old(self).queued()[0],
            ) && final(self).queued() == old(self).queued().drop_first() && final(self).consumed()
                == old(self).consumed(),
            old(self).failure() is None && old(self).has_started() && !old(self).has_ended()
                && old(self).queued().len() == 0 ==> ({
                let src = old(self).source();
                let t = scan_start(src, old(self).consumed());
                let k = plain_len(src, t);
                let sep = key_sep(src, t);
                let q = final(self).queued();
                &&& end_char(padded(src, t)) ==> r is Some && r->Some_0.1 is End
                    && end_at(r->Some_0.0, src, t) && q.len() == 0
                &&& separator_at(src, t, false) ==> r is None && final(self).failure() is Some
                    && unknown_at(final(self).failure()->Some_0, Seq::empty(), src, t)
                &&& !end_char(padded(src, t)) && !separator_at(src, t, false) && separator_at(
                    src,
                    sep,
                    false,
                ) ==> r is Some && r->Some_0.1 is Key && at_offset(r->Some_0.0, src, t) && q.len()
                    == 3 && r->Some_0.0 == q[0].0 && lexemes(q) == seq![
                    Lexeme::Scalar(src.subrange(t, t + k)),
                    Lexeme::Value,
                    Lexeme::Scalar(value_text(src, sep)),
                ] && q[1].0 == q[2].0 && at_offset(q[1].0, src, after_separator(src, sep))
                    && final(self).consumed() == value_scan_end(src, sep)
                &&& !end_char(padded(src, t)) && !separator_at(src, t, false) && !separator_at(
                    src,
                    sep,
                    false,
                ) ==> r is None && final(self).failure() is Some && unknown_at(
                    final(self).failure()->Some_0,
                    src.subrange(t, t + k),
                    src,
                    t,
                )
            }),
    {
        if self.error.is_some() {
            return None;
        }
        match self.next_token() {
            Ok(tok) => tok,
            Err(e) => {
                self.error = Some(e);
                None
            },
        }
    }

    /// The error that stopped the scan, if one did, taking the scanner apart.
    pub fn into_error(self) -> (r: Option<LexErr>)
        ensures
            r == self.failure(),
    {
        self.error
    }

    // ## methods to move past characters ##
    fn first_char(&self) -> (r: char)
        requires
            self.buffer.len() >= 1,
        ensures
            r == self.buffer[0],
    {
        self.buffer[0]
    }

    /// Consumes the first character of the window.
    fn skip(&mut self)
        requires
            old(self).inner_wf(),
            !end_char(padded(old(self).reader@, old(self).consumed())),
        ensures
            final(self).inner_wf(),
            final(self).same_but_reading(old(self)),
            final(self).buffer.len() >= 1,
            final(self).consumed() == old(self).consumed() + 1,
            ({
                let c = padded(old(self).reader@, old(self).consumed());
                let nc = padded(old(self).reader@, old(self).consumed() + 1);
                if c == '\n' || (c == '\r' && nc != '\n') {
                    final(self).current_position.line == old(self).current_position.line + 1
                        && final(self).current_position.column == 0
                } else {
                    final(self).current_position.line == old(self).current_position.line
                        && final(self).current_position.column == old(self).current_position.column
                        + 1
                }
            }),
    {
        self.ensure_chars(2);
        let c = self.buffer.pop_front().unwrap();
        let nc = self.buffer[0];
        self.current_position.next_index();
        if c == '\n' || (c == '\r' && nc != '\n') {
            self.current_position.column = 0;
            self.current_position.line = self.current_position.line + 1;
        } else {
            self.current_position.column = self.current_position.column + 1;
        }
        proof {
            let all = self.produced();
            assert forall|i: int| 0 <= i < all.len() implies #[trigger] all[i].0.spec_index()
                <= self.consumed() by {
                assert(all =~= old(self).produced());
            }
        }
    }

    /// Skips a CRLF, or a lone line break.
    fn skip_break(&mut self)
        requires
            old(self).inner_wf(),
        ensures
            final(self).inner_wf(),
            final(self).same_but_reading(old(self)),
            !break_char(padded(old(self).reader@, old(self).consumed()))
                ==> final(self).current_position == old(self).current_position,
            break_char(padded(old(self).reader@, old(self).consumed())) ==> ({
                let src = old(self).reader@;
                let c = old(self).consumed();
                &&& final(self).consumed() == c + (if padded(src, c) == '\r' && padded(src, c + 1)
                    == '\n' {
                    2int
                } else {
                    1int
                })
                &&& final(self).current_position.line == old(self).current_position.line + 1
                &&& final(self).current_position.column == 0
            }),
    {
        self.ensure_chars(2);
        let c = self.buffer[0];
        let nc = self.buffer[1];
        if c == '\r' && nc == '\n' {
            self.skip();
            self.skip();
        } else if is_break(c) {
            self.skip();
        }
    }

    /// Reads ahead until the window holds at least `num_chars` characters; past the
    /// end of the source it is filled with the end sentinel.
    fn ensure_chars(&mut self, num_chars: usize)
        requires
            old(self).inner_wf(),
            num_chars <= 4,
        ensures
            final(self).inner_wf(),
            final(self).same_but_reading(old(self)),
            final(self).current_position == old(self).current_position,
            final(self).buffer.len() >= num_chars,
            old(self).buffer.len() >= num_chars ==> final(self).buffer == old(self).buffer,
            old(self).buffer.len() < num_chars ==> final(self).buffer.len() == num_chars,
    {
        while self.buffer.len() < num_chars
            invariant
                self.inner_wf(),
                self.same_but_reading(old(self)),
                self.current_position == old(self).current_position,
                num_chars <= 4,
                old(self).buffer.len() >= num_chars ==> self.buffer == old(self).buffer,
                old(self).buffer.len() < num_chars ==> self.buffer.len() <= num_chars,
            decreases num_chars - self.buffer.len(),
        {
            let c = if self.read < self.reader.len() {
                let c = self.reader[self.read];
                self.read = self.read + 1;
                c
            } else {
                '\0'
            };
            self.buffer.push_back(c);
        }
    }

    /// Skips blanks, line breaks and comments up to the next character that can
    /// begin a token, or the end.
    fn skip_to_token(&mut self)
        requires
            old(self).inner_wf(),
        ensures
            final(self).inner_wf(),
            final(self).same_but_reading(old(self)),
            final(self).consumed() >= old(self).consumed(),
            final(self).buffer.len() >= 1,
            !blank_char(final(self).buffer[0]),
            !break_char(final(self).buffer[0]),
            final(self).buffer[0] != '#',
            (!blank_char(padded(old(self).reader@, old(self).consumed())) && !break_char(
                padded(old(self).reader@, old(self).consumed()),
            ) && padded(old(self).reader@, old(self).consumed()) != '#') ==> final(self).consumed()
                == old(self).consumed(),
            final(self).consumed() == old(self).consumed() ==> final(self).current_position == old(
                self,
            ).current_position,
            final(self).consumed() == scan_start(old(self).reader@, old(self).consumed()),
            old(self).buffer.len() >= 1 && final(self).consumed() == old(self).consumed()
                ==> final(self).buffer == old(self).buffer,
    {
        let ghost target = scan_start(self.reader@, self.consumed());
        loop
            invariant
                scan_start(self.reader@, self.consumed()) == target,
                old(self).buffer.len() >= 1 && self.consumed() == old(self).consumed()
                    ==> self.buffer == old(self).buffer,
                self.inner_wf(),
                self.same_but_reading(old(self)),
                self.consumed() >= old(self).consumed(),
                self.consumed() == old(self).consumed() ==> self.current_position == old(
                    self,
                ).current_position,
                (!blank_char(padded(old(self).reader@, old(self).consumed())) && !break_char(
                    padded(old(self).reader@, old(self).consumed()),
                ) && padded(old(self).reader@, old(self).consumed()) != '#') ==> self.consumed()
                    == old(self).consumed(),
            ensures
                self.inner_wf(),
                self.same_but_reading(old(self)),
                self.consumed() >= old(self).consumed(),
                self.consumed() == old(self).consumed() ==> self.current_position == old(
                    self,
                ).current_position,
                self.consumed() == target,
                old(self).buffer.len() >= 1 && self.consumed() == old(self).consumed()
                    ==> self.buffer == old(self).buffer,
                self.buffer.len() >= 1,
                !blank_char(self.buffer[0]),
                !break_char(self.buffer[0]),
                self.buffer[0] != '#',
            decreases self.reader.len() - self.consumed(),
        {
            // make sure we can peek next character at least
            self.ensure_chars(1);
            let ghost before = self.consumed();
            let ghost src = self.reader@;
            assert(self.buffer[0] == padded(src, before));
            match self.first_char() {
                ' ' | '\t' => {
                    self.skip();
                    assert(token_start(src, before, false) == token_start(src, before + 1, false));
                },
                '\n' | '\r' => {
                    self.skip_break();
                    proof {
                        assert(token_start(src, before, false) == token_start(src, before + 1, false));
                        if self.consumed() == before + 2 {
                            assert(token_start(src, before + 1, false) == token_start(
                                src,
                                before + 2,
                                false,
                            ));
                        }
                    }
                },
                '#' => {
                    // a comment takes the rest of the line
                    while !is_break_end(self.first_char())
                        invariant
                            self.inner_wf(),
                            self.same_but_reading(old(self)),
                            self.consumed() >= before,
                            self.buffer.len() >= 1,
                            self.consumed() > before || self.buffer[0] == '#',
                            src == self.reader@,
                            scan_start(src, before) == target,
                            (self.consumed() == before && self.buffer[0] == '#') || token_start(
                                self.reader@,
                                self.consumed(),
                                true,
                            ) == target,
                        ensures
                            token_start(self.reader@, self.consumed(), true) == target,
                            self.buffer.len() >= 1,
                            self.buffer[0] == padded(self.reader@, self.consumed()),
                            break_char(self.buffer[0]) || end_char(self.buffer[0]),
                            self.inner_wf(),
                            self.same_but_reading(old(self)),
                            self.consumed() > before,
                        decreases self.reader.len() - self.consumed(),
                    {
                        let ghost k = self.consumed();
                        assert(self.buffer[0] == padded(src, k));
                        self.skip();
                        proof {
                            if k == before {
                                assert(token_start(src, k, false) == token_start(src, k + 1, true));
                            } else {
                                assert(token_start(src, k, true) == token_start(src, k + 1, true));
                            }
                        }
                        self.ensure_chars(1);
                    }
                    assert(token_start(src, self.consumed(), true) == token_start(
                        src,
                        self.consumed(),
                        false,
                    ));
                },
                _ => break,
            }
        }
    }

    /// Consumes one line break, a CRLF counting as one, and counts it.
    fn read_break(&mut self, breaks: &mut usize)
        requires
            old(self).inner_wf(),
            break_char(padded(old(self).reader@, old(self).consumed())),
            *old(breaks) < old(self).consumed() + 1,
        ensures
            final(self).inner_wf(),
            final(self).same_but_reading(old(self)),
            ({
                let src = old(self).reader@;
                let c = old(self).consumed();
                &&& final(self).consumed() == c + (if padded(src, c) == '\r' && padded(src, c + 1)
                    == '\n' {
                    2int
                } else {
                    1int
                })
                &&& final(self).current_position.line == old(self).current_position.line + 1
                &&& final(self).current_position.column == 0
            }),
            *final(breaks) == *old(breaks) + 1,
    {
        *breaks = *breaks + 1;
        self.skip_break();
    }

    // ## Specific Token Readers. Deal with buffer ##
    /// Reads a plain scalar. Outside flow collections it is the run of characters up
    /// to the first blank, break, end or key separator; the blanks and breaks that
    /// follow it are consumed too.
    fn read_scalar(&mut self) -> (r: YamlToken)
        requires
            old(self).inner_wf(),
            !old(self).end_queued@,
        ensures
            (old(self).flow_level > 0 && padded(old(self).reader@, old(self).consumed()) != '#')
                ==> r.1@ == Lexeme::Scalar(
                flow_scalar_text(
                    old(self).reader@,
                    old(self).consumed(),
                    old(self).curr_indent + 1,
                ),
            ),
            final(self).inner_wf(),
            final(self).same_but_reading(old(self)),
            final(self).consumed() >= old(self).consumed(),
            r.0 == old(self).current_position,
            r.1 is Scalar,
            (old(self).flow_level == 0 && padded(old(self).reader@, old(self).consumed()) != '#')
                ==> r.1 == YamlTokenType::Scalar(r.1->Scalar_0) && (r.1->Scalar_0)@
                == old(self).reader@.subrange(
                old(self).consumed(),
                old(self).consumed() + plain_len(old(self).reader@, old(self).consumed()),
            ),
            (padded(old(self).reader@, old(self).consumed()) != '#' && !scalar_stop(
                old(self).reader@,
                old(self).consumed(),
            )) ==> final(self).consumed() > old(self).consumed(),
            old(self).flow_level == 0 && padded(old(self).reader@, old(self).consumed()) != '#'
                ==> final(self).consumed() == ws_end(
                old(self).reader@,
                old(self).consumed() + plain_len(old(self).reader@, old(self).consumed()),
            ),
            padded(old(self).reader@, old(self).consumed()) == '#' ==> r.1@ == Lexeme::Scalar(
                Seq::empty(),
            ) && final(self).current_position == old(self).current_position,
    {
        let indent: isize = self.curr_indent + 1;
        let pos = self.current_position;
        let ghost i0 = self.consumed();
        let ghost src = self.reader@;
        let mut breaks: usize = 0;
        let mut scalar = String::new();
        proof {
            lemma_plain_len_bound(src, i0);
        }
        loop
            invariant_except_break
                self.flow_level == 0 ==> self.consumed() == i0 && scalar@.len() == 0
                    && self.current_position == pos,
                breaks == 0,
                padded(src, i0) == '#' ==> self.consumed() == i0 && scalar@.len() == 0
                    && self.current_position == pos,
                self.flow_level > 0 ==> scalar@ + flow_scalar_text(src, self.consumed(), indent as int)
                    == flow_scalar_text(src, i0, indent as int),
            invariant
                !self.end_queued@,
                i0 + plain_len(src, i0) <= src.len(),
                self.inner_wf(),
                self.same_but_reading(old(self)),
                self.current_position.spec_index() == self.consumed(),
                self.consumed() >= i0,
                i0 == old(self).consumed(),
                src == self.reader@,
                pos == old(self).current_position,
                indent == old(self).curr_indent + 1,
            ensures
                self.inner_wf(),
                self.same_but_reading(old(self)),
                self.consumed() >= i0,
                (self.flow_level == 0 && padded(src, i0) != '#') ==> scalar@ == src.subrange(
                    i0,
                    i0 + plain_len(src, i0),
                ),
                (padded(src, i0) != '#' && !scalar_stop(src, i0)) ==> self.consumed() > i0,
                self.flow_level == 0 && padded(src, i0) != '#' ==> self.consumed() == ws_end(
                    src,
                    i0 + plain_len(src, i0),
                ),
                padded(src, i0) == '#' ==> scalar@ == Seq::<char>::empty() && self.current_position
                    == pos,
                self.flow_level > 0 ==> scalar@ == flow_scalar_text(src, i0, indent as int),
            decreases self.reader.len() - self.consumed(),
        {
            let ghost start = self.consumed();
            let ghost prefix = scalar@;
            self.ensure_control_chars_len();
            // a comment ends the scalar
            if self.first_char() == '#' {
                assert(scalar@ =~= Seq::<char>::empty() || self.flow_level > 0);
                assert(flow_scalar_text(src, start, indent as int) == Seq::<char>::empty());
                assert(scalar@ + Seq::<char>::empty() =~= scalar@);
                break;
            }
            // build string version of value
            while !is_blank_end(self.first_char()) && !(self.buffer[0] == ':' && is_blank_end(
                self.buffer[1],
            ))
                invariant
                    self.inner_wf(),
                    self.same_but_reading(old(self)),
                    self.buffer.len() >= 2,
                    self.consumed() >= start,
                    src == self.reader@,
                    scalar@ == prefix + src.subrange(start, self.consumed()),
                    plain_len(src, start) == (self.consumed() - start) + plain_len(
                        src,
                        self.consumed(),
                    ),
                decreases self.reader.len() - self.consumed(),
            {
                let ghost k = self.consumed();
                assert(!scalar_stop(src, k));
                assert(padded(src, k) == self.buffer[0]);
                push_char(&mut scalar, self.first_char());
                self.skip();
                self.ensure_chars(2);
                assert(src.subrange(start, k + 1) =~= src.subrange(start, k).push(src[k]));
            }
            assert(scalar_stop(src, self.consumed()));
            assert(plain_len(src, self.consumed()) == 0);
            assert(self.consumed() == i0 + plain_len(src, i0) || self.flow_level != 0);
            let ghost e = self.consumed();
            assert(e == start + plain_len(src, start));
            assert(self.buffer[0] == padded(src, e));
            // did we hit the end of the stream
            if is_end(self.first_char()) {
                assert(flow_scalar_text(src, start, indent as int) == src.subrange(start, e));
                break;
            }
            // stopped at a key separator
            if !is_blank(self.first_char()) && !is_break(self.first_char()) {
                assert(flow_scalar_text(src, start, indent as int) == src.subrange(start, e));
                break;
            }
            let ghost mid = self.consumed();
            // blanks and breaks that follow the text
            while is_blank(self.first_char()) || is_break(self.first_char())
                invariant
                    self.inner_wf(),
                    self.same_but_reading(old(self)),
                    self.buffer.len() >= 1,
                    self.consumed() >= mid,
                    src == self.reader@,
                    breaks <= self.consumed(),
                    (blank_char(self.buffer[0]) || break_char(self.buffer[0])) || self.consumed()
                        > mid,
                    ws_end(src, self.consumed()) == ws_end(src, mid),
                    breaks == breaks_in(src, mid, self.consumed()),
                ensures
                    self.inner_wf(),
                    self.same_but_reading(old(self)),
                    self.consumed() > mid,
                    breaks <= self.consumed(),
                    breaks == breaks_in(src, mid, self.consumed()),
                    self.consumed() == ws_end(src, mid),
                decreases self.reader.len() - self.consumed(),
            {
                let ghost k = self.consumed();
                assert(self.buffer.len() < 2 || self.buffer[1] == padded(src, k + 1));
                if is_blank(self.first_char()) {
                    self.skip();
                } else {
                    self.ensure_chars(2);
                    self.read_break(&mut breaks);
                }
                proof {
                    assert(ws_end(src, k) == ws_end(src, k + 1));
                    assert(breaks_in(src, mid, k + 1) == breaks_in(src, mid, k) + (if padded(src, k)
                        == '\n' || (padded(src, k) == '\r' && padded(src, k + 1) != '\n') {
                        1nat
                    } else {
                        0nat
                    }));
                    if self.consumed() == k + 2 {
                        assert(ws_end(src, k + 1) == ws_end(src, k + 2));
                        assert(breaks_in(src, mid, k + 2) == breaks_in(src, mid, k + 1) + 1);
                    }
                }
                self.ensure_chars(1);
            }
            let ghost w = self.consumed();
            assert(w == ws_end(src, e));
            assert(self.current_position.column == line_col(src, w).1);
            if self.flow_level == 0 || (indent > 0 && self.current_position.column
                < indent as usize) {
                assert(self.flow_level == 0 || flow_scalar_text(src, start, indent as int)
                    == src.subrange(start, e));
                break;
            }
            // the scalar goes on: fold what lay between
            assert(flow_scalar_text(src, start, indent as int) == src.subrange(start, e) + folded(
                breaks_in(src, e, w),
            ) + flow_scalar_text(src, w, indent as int));
            fold_breaks(&mut scalar, breaks);
            assert(scalar@ =~= prefix + src.subrange(start, e) + folded(breaks as nat));
            breaks = 0;
        }
        YamlToken(pos, YamlTokenType::Scalar(scalar))
    }

    /// Only the queue and what goes with it may differ.
    closed spec fn same_but_queue(&self, o: &Lexer) -> bool {
        &&& self.reader == o.reader
        &&& self.flow_level == o.flow_level
        &&& self.error == o.error
        &&& self.stream_ended == o.stream_ended
        &&& self.emitted == o.emitted
    }

    /// A key separator stands at the front of the window.
    fn at_separator(&self) -> (r: bool)
        requires
            self.inner_wf(),
            self.buffer.len() >= 2,
        ensures
            r == separator_at(self.reader@, self.consumed(), self.flow_level > 0),
    {
        let c = self.buffer[0];
        let nc = self.buffer[1];
        c == ':' && (is_blank_end(nc) || (self.flow_level > 0 && is_flow(nc)))
    }

    // ## Iteration and lazy evaluation functions
    fn next_token(&mut self) -> (r: Result<Option<YamlToken>, LexErr>)
        requires
            old(self).wf(),
        ensures
            final(self).wf(),
            final(self).reader == old(self).reader,
            final(self).error == old(self).error,
            old(self).stream_ended ==> r == Ok::<Option<YamlToken>, LexErr>(None) && *final(self) == *old(self),
            r == Ok::<Option<YamlToken>, LexErr>(None) ==> old(self).stream_ended,
            r is Ok && r->Ok_0 is Some ==> final(self).emitted@ == old(self).emitted@.push(r->Ok_0->Some_0)
                && final(self).potential() < old(self).potential(),
            r is Err ==> final(self).emitted@ == old(self).emitted@ && !final(self).stream_ended,
            old(self).stream_started ==> final(self).stream_started,
            r is Ok && r->Ok_0 is Some ==> final(self).stream_started && (final(self).stream_ended
                <==> r->Ok_0->Some_0.1 is End) && no_raw_break(r->Ok_0->Some_0.1@),
            !old(self).stream_started ==> r is Ok && r->Ok_0 is Some && r->Ok_0->Some_0.1 is Start
                && r->Ok_0->Some_0.0 == old(self).current_position
                && final(self).tokens.len() == 0 && final(self).consumed() == old(self).consumed(),
            old(self).tokens.len() > 0 ==> r == Ok::<Option<YamlToken>, LexErr>(Some(old(self).tokens[0]))
                && final(self).tokens@ == old(self).tokens@.drop_first()
                && final(self).consumed() == old(self).consumed(),
            old(self).stream_started && !old(self).stream_ended && old(self).tokens.len() == 0 ==> ({
                let src = old(self).reader@;
                let t = scan_start(src, old(self).consumed());
                let k = plain_len(src, t);
                let sep = key_sep(src, t);
                let q = final(self).tokens@;
                &&& end_char(padded(src, t)) ==> r is Ok && r->Ok_0 is Some && r->Ok_0->Some_0.1 is End
                    && end_at(r->Ok_0->Some_0.0, src, t) && q.len() == 0
                &&& separator_at(src, t, false) ==> r is Err && unknown_at(r->Err_0, Seq::empty(), src, t)
                &&& !end_char(padded(src, t)) && !separator_at(src, t, false) && separator_at(src, sep, false)
                    ==> r is Ok && r->Ok_0 is Some && r->Ok_0->Some_0.1 is Key
                    && at_offset(r->Ok_0->Some_0.0, src, t) && q.len() == 3 && r->Ok_0->Some_0.0 == q[0].0
                    && lexemes(q) == seq![
                    Lexeme::Scalar(src.subrange(t, t + k)),
                    Lexeme::Value,
                    Lexeme::Scalar(value_text(src, sep)),
                ] && q[1].0 == q[2].0 && at_offset(q[1].0, src, after_separator(src, sep))
                    && final(self).consumed() == value_scan_end(src, sep)
                &&& !end_char(padded(src, t)) && !separator_at(src, t, false) && !separator_at(src, sep, false)
                    ==> r is Err && unknown_at(r->Err_0, src.subrange(t, t + k), src, t)
            }),
    {
        if self.stream_ended {
            return Ok(None);
        }
        if !self.token_available {
            match self.fetch_token() {
                Ok(()) => {},
                Err(e) => {
                    return Err(e);
                },
            }
        }
        let ghost all = self.produced();
        let ghost queue = self.tokens@;
        let tok = self.tokens.pop_front().unwrap();
        proof {
            assert(self.tokens@ =~= queue.drop_first());
            assert(lexemes(self.tokens@) =~= lexemes(queue).drop_first());
        }
        self.emitted = Ghost(self.emitted@.push(tok));
        proof {
            assert(self.produced() =~= all);
            let e = old(self).emitted@.len() as int;
            assert(all[e] == tok);
            assert(no_raw_break(all[e].1@));
            if self.tokens.len() == 0 {
                assert(all.last() == tok);
            }
            if tok.1 is End {
                assert(self.end_queued@);
                assert(e == all.len() - 1);
            }
        }
        if self.tokens.len() == 0 {
            self.token_available = false;
        }
        if let YamlTokenType::End = tok.1 {
            self.stream_ended = true;
        }
        assert(self.inner_wf());
        Ok(Some(tok))
    }

    /// Runs dispatch until a token can be handed out. A scalar alone never
    /// completes one: the dispatch after it makes it a key, or fails.
    fn fetch_token(&mut self) -> (r: LexResult)
        requires
            old(self).inner_wf(),
            old(self).flow_level == 0,
            old(self).tokens.len() == 0,
            !old(self).token_available,
            !old(self).stream_ended,
        ensures
            final(self).wf(),
            final(self).same_but_queue(old(self)),
            r is Ok ==> final(self).tokens.len() > 0 && final(self).potential() < old(self).potential(),
            r is Err ==> final(self).tokens.len() == 0,
            final(self).stream_started,
            !old(self).stream_started ==> r is Ok && final(self).tokens.len() == 1
                && final(self).tokens[0].1 is Start && final(self).tokens[0].0 == old(self).current_position
                && final(self).consumed() == old(self).consumed(),
            old(self).stream_started ==> ({
                let src = old(self).reader@;
                let t = scan_start(src, old(self).consumed());
                let k = plain_len(src, t);
                let sep = key_sep(src, t);
                let q = final(self).tokens@;
                &&& end_char(padded(src, t)) ==> r is Ok && q.len() == 1 && q[0].1 is End
                    && end_at(q[0].0, src, t)
                &&& separator_at(src, t, false) ==> r is Err && unknown_at(r->Err_0, Seq::empty(), src, t)
                &&& !end_char(padded(src, t)) && !separator_at(src, t, false) && separator_at(src, sep, false)
                    ==> r is Ok && q.len() == 4 && q[0].1 is Key && q[0].0 == q[1].0
                    && at_offset(q[0].0, src, t) && lexemes(q) == seq![
                    Lexeme::Key,
                    Lexeme::Scalar(src.subrange(t, t + k)),
                    Lexeme::Value,
                    Lexeme::Scalar(value_text(src, sep)),
                ] && q[2].0 == q[3].0 && at_offset(q[2].0, src, after_separator(src, sep))
                    && final(self).consumed() == value_scan_end(src, sep)
                &&& !end_char(padded(src, t)) && !separator_at(src, t, false) && !separator_at(src, sep, false)
                    ==> r is Err && unknown_at(r->Err_0, src.subrange(t, t + k), src, t)
            }),
    {
        let ghost src = self.reader@;
        let ghost t = scan_start(src, self.consumed());
        match self.fetch_next_tok() {
            Ok(()) => {},
            Err(e) => {
                return Err(e);
            },
        }
        if !self.token_available {
            proof {
                lemma_token_start_ws(src, t + plain_len(src, t));
            }
            let ghost mid = self.tokens@;
            let r = self.fetch_next_tok();
            proof {
                if r is Ok {
                    assert(lexemes(self.tokens@) =~= seq![
                        Lexeme::Key,
                        Lexeme::Scalar(src.subrange(t, t + plain_len(src, t))),
                        Lexeme::Value,
                        Lexeme::Scalar(value_text(src, key_sep(src, t))),
                    ]);
                }
            }
            return r;
        }
        Ok(())
    }

    /// Inserts a token before the one `position` steps from the end of the queue
    /// (0: before the last), or at the front where the queue is shorter.
    fn insert_token(&mut self, position: usize, token: YamlToken)
        requires
            position < usize::MAX,
        ensures
            final(self).tokens@ == old(self).tokens@.insert(
                if old(self).tokens.len() > position {
                    old(self).tokens.len() - position - 1
                } else {
                    0
                },
                token,
            ),
            final(self).reader == old(self).reader,
            final(self).read == old(self).read,
            final(self).buffer == old(self).buffer,
            final(self).curr_indent == old(self).curr_indent,
            final(self).flow_level == old(self).flow_level,
            final(self).error == old(self).error,
            final(self).stream_started == old(self).stream_started,
            final(self).stream_ended == old(self).stream_ended,
            final(self).current_position == old(self).current_position,
            final(self).token_available == old(self).token_available,
            final(self).end_queued == old(self).end_queued,
            final(self).emitted == old(self).emitted,
    {
        insert_from_end(&mut self.tokens, position, token);
    }

    fn start_stream(&mut self)
        requires
            old(self).inner_wf(),
            !old(self).stream_started,
            old(self).tokens.len() == 0,
        ensures
            final(self).inner_wf(),
            final(self).reader == old(self).reader,
            final(self).flow_level == old(self).flow_level,
            final(self).error == old(self).error,
            final(self).stream_ended == old(self).stream_ended,
            final(self).emitted == old(self).emitted,
            final(self).end_queued == old(self).end_queued,
            final(self).stream_started,
            final(self).token_available,
            final(self).tokens.len() == 1,
            final(self).tokens[0].1 is Start,
            final(self).tokens[0].0 == old(self).current_position,
            final(self).curr_indent == -1,
            final(self).consumed() == old(self).consumed(),
    {
        let pos = self.current_position;
        self.stream_started = true;
        self.curr_indent = -1;
        self.token_available = true;
        let ghost all = self.produced();
        self.tokens.push_back(YamlToken(pos, YamlTokenType::Start));
        proof {
            assert(self.produced() =~= all.push(YamlToken(pos, YamlTokenType::Start)));
            lemma_push_token(all, YamlToken(pos, YamlTokenType::Start));
        }
    }

    fn end_stream(&mut self)
        requires
            old(self).inner_wf(),
            old(self).stream_started,
            !old(self).end_queued@,
            old(self).tokens.len() == 0,
        ensures
            final(self).inner_wf(),
            final(self).same_but_queue(old(self)),
            final(self).end_queued@,
            final(self).token_available,
            final(self).tokens.len() == 1,
            final(self).tokens[0].1 is End,
            final(self).tokens[0].0 == final(self).current_position,
            end_at(final(self).tokens[0].0, old(self).reader@, old(self).consumed()),
            final(self).consumed() == old(self).consumed(),
    {
        if self.current_position.column != 0 {
            self.current_position.column = 0;
            self.current_position.line = self.current_position.line + 1;
        }
        self.token_available = true;
        let ghost all = self.produced();
        let tok = YamlToken(self.current_position, YamlTokenType::End);
        self.tokens.push_back(tok);
        self.end_queued = Ghost(true);
        proof {
            let s = self.produced();
            assert(s =~= all.push(tok));
            lemma_push_token(all, tok);
            assert forall|i: int| 0 <= i < s.len() implies #[trigger] s[i].0.spec_index()
                <= self.consumed() by {
                if i < all.len() {
                    assert(s[i] == all[i]);
                }
            }
            assert(s.last() == tok);
        }
    }

    /// One step of dispatch: the start, the end, a key separator, or one scalar.
    /// A scalar that waits in the queue must be followed by a key separator.
    fn fetch_next_tok(&mut self) -> (r: LexResult)
        requires
            old(self).inner_wf(),
            old(self).flow_level == 0,
            !old(self).token_available,
            !old(self).stream_ended,
            !old(self).end_queued@,
            old(self).tokens.len() <= 1,
            old(self).tokens.len() == 1 ==> old(self).stream_started && old(self).tokens[0].1 is Scalar,
        ensures
            final(self).inner_wf(),
            final(self).same_but_queue(old(self)),
            r is Ok ==> final(self).potential() < old(self).potential(),
            r is Ok && final(self).token_available ==> final(self).tokens.len() > 0,
            r is Ok && !final(self).token_available ==> final(self).tokens.len() == 1
                && final(self).stream_started && final(self).tokens[0].1 is Scalar
                && !final(self).end_queued@,
            r is Err ==> final(self).tokens.len() == 0 && !final(self).token_available,
            final(self).stream_started,
            !old(self).stream_started ==> r is Ok && final(self).token_available
                && final(self).tokens.len() == 1 && final(self).tokens[0].1 is Start
                && final(self).tokens[0].0 == old(self).current_position
                && final(self).consumed() == old(self).consumed() && final(self).curr_indent < 0,
            old(self).stream_started ==> ({
                let src = old(self).reader@;
                let t = scan_start(src, old(self).consumed());
                let q = final(self).tokens@;
                &&& old(self).tokens.len() == 1 && separator_at(src, t, false) ==> r is Ok
                    && final(self).token_available && q.len() == 4
                    && q[0] == YamlToken(old(self).tokens[0].0, YamlTokenType::Key)
                    && q[1] == old(self).tokens[0] && q[2].1 is Value && q[2].0 == q[3].0
                    && at_offset(q[2].0, src, after_separator(src, t))
                    && q[3].1@ == Lexeme::Scalar(value_text(src, t))
                    && final(self).consumed() == value_scan_end(src, t)
                &&& old(self).tokens.len() == 1 && !separator_at(src, t, false) ==> r is Err
                    && unknown_with(r->Err_0, old(self).tokens[0].1->Scalar_0@, old(self).tokens[0].0)
                &&& old(self).tokens.len() == 0 && end_char(padded(src, t)) ==> r is Ok
                    && final(self).token_available && q.len() == 1 && q[0].1 is End
                    && end_at(q[0].0, src, t)
                &&& old(self).tokens.len() == 0 && separator_at(src, t, false) ==> r is Err
                    && unknown_at(r->Err_0, Seq::empty(), src, t)
                &&& old(self).tokens.len() == 0 && !end_char(padded(src, t)) && !separator_at(src, t, false)
                    ==> r is Ok && !final(self).token_available && q.len() == 1
                    && at_offset(q[0].0, src, t) && plain_len(src, t) >= 1
                    && q[0].1@ == Lexeme::Scalar(src.subrange(t, t + plain_len(src, t)))
                    && final(self).consumed() == ws_end(src, t + plain_len(src, t))
            }),
    {
        self.ensure_chars(1);
        if !self.stream_started {
            self.start_stream();
            return Ok(());
        }
        // unknown amount of whitespace between now and real characters
        self.skip_to_token();
        self.ensure_control_chars_len();
        let sep = self.at_separator();
        if self.tokens.len() > 0 && !sep {
            // the scalar queued last is no key: it cannot stand here
            let ghost all = self.produced();
            let tok = self.tokens.pop_front().unwrap();
            proof {
                assert(self.tokens@ =~= Seq::<YamlToken>::empty());
                assert(self.produced() =~= all.drop_last());
                lemma_drop_last_token(all);
            }
            let YamlToken(p, kind) = tok;
            return match kind {
                YamlTokenType::Scalar(text) => Err(LexErr::UnknownToken(text, p)),
                _ => Err(LexErr::UnknownToken(String::new(), p)),
            };
        }
        // hit end somehow
        if is_end(self.first_char()) {
            self.end_stream();
            return Ok(());
        }
        if sep {
            let ghost before = self.tokens@;
            let r = self.fetch_value();
            proof {
                if r is Ok && before.len() == 1 {
                    assert(self.tokens@.subrange(0, 2)[0] == self.tokens[0]);
                    assert(self.tokens@.subrange(0, 2)[1] == self.tokens[1]);
                    assert(before.insert(0, YamlToken(before.last().0, YamlTokenType::Key))[0]
                        == YamlToken(before[0].0, YamlTokenType::Key));
                    assert(before.insert(0, YamlToken(before.last().0, YamlTokenType::Key))[1]
                        == before[0]);
                }
            }
            r
        } else {
            self.fetch_scalar();
            Ok(())
        }
    }

    // ## Specific Token Fetchers ##
    /// Reads a plain scalar and queues it.
    fn fetch_scalar(&mut self)
        requires
            old(self).inner_wf(),
            old(self).flow_level == 0,
            old(self).stream_started,
            !old(self).end_queued@,
        ensures
            final(self).inner_wf(),
            final(self).same_but_queue(old(self)),
            final(self).token_available == old(self).token_available,
            final(self).end_queued == old(self).end_queued,
            final(self).tokens.len() == old(self).tokens.len() + 1,
            final(self).tokens@.drop_last() == old(self).tokens@,
            final(self).tokens@.last().0 == old(self).current_position,
            final(self).tokens@.last().1 is Scalar,
            final(self).consumed() >= old(self).consumed(),
            (padded(old(self).reader@, old(self).consumed()) != '#' && !scalar_stop(
                old(self).reader@,
                old(self).consumed(),
            )) ==> final(self).consumed() > old(self).consumed(),
            padded(old(self).reader@, old(self).consumed()) != '#' ==> final(self).tokens@.last().1@
                == Lexeme::Scalar(
                old(self).reader@.subrange(
                    old(self).consumed(),
                    old(self).consumed() + plain_len(old(self).reader@, old(self).consumed()),
                ),
            ) && final(self).consumed() == ws_end(
                old(self).reader@,
                old(self).consumed() + plain_len(old(self).reader@, old(self).consumed()),
            ),
            padded(old(self).reader@, old(self).consumed()) == '#' ==> final(self).tokens@.last().1@
                == Lexeme::Scalar(Seq::empty()) && final(self).consumed() == old(self).consumed(),
    {
        let ghost src = self.reader@;
        let ghost c = self.consumed();
        let tok = self.read_scalar();
        let ghost all = self.produced();
        self.tokens.push_back(tok);
        proof {
            assert(self.produced() =~= all.push(tok));
            assert(self.tokens@.drop_last() =~= old(self).tokens@);
            lemma_push_token(all, tok);
            lemma_plain_text(src, c);
            lemma_plain_len_bound(src, c);
            if padded(src, c) != '#' {
                let t = src.subrange(c, c + plain_len(src, c));
                assert forall|i: int| 0 <= i < t.len() implies !break_char(#[trigger] t[i]) by {
                    assert(t[i] == padded(src, c + i));
                }
            }
            lemma_breakless_push(all, tok);
        }
    }

    /// Handles a key separator: the scalar queued last becomes a key, by a `Key`
    /// inserted before it, and a `Value` and the value's scalar follow.
    fn fetch_value(&mut self) -> (r: LexResult)
        requires
            old(self).inner_wf(),
            old(self).flow_level == 0,
            old(self).buffer.len() >= 2,
            old(self).buffer[0] == ':',
            !old(self).end_queued@,
        ensures
            final(self).inner_wf(),
            r is Err ==> *final(self) == *old(self),
            r is Ok <==> (old(self).tokens.len() > 0 && old(self).tokens@.last().1 is Scalar),
            r is Ok ==> final(self).same_but_queue(old(self))
                && final(self).token_available
                && final(self).tokens.len() == old(self).tokens.len() + 3
                && final(self).consumed() > old(self).consumed()
                && final(self).tokens@.subrange(0, old(self).tokens.len() + 1 as int)
                    == old(self).tokens@.insert(
                    old(self).tokens.len() - 1,
                    YamlToken(old(self).tokens@.last().0, YamlTokenType::Key),
                ) && final(self).tokens[old(self).tokens.len() + 1].1 is Value
                && final(self).tokens[old(self).tokens.len() + 2].1 is Scalar,
            r is Ok && padded(old(self).reader@, after_separator(old(self).reader@, old(self).consumed()))
                != '#' ==> ({
                let src = old(self).reader@;
                let c2 = after_separator(src, old(self).consumed());
                &&& final(self).tokens[old(self).tokens.len() + 2].1@ == Lexeme::Scalar(
                    src.subrange(c2, c2 + plain_len(src, c2)),
                )
                &&& final(self).consumed() == ws_end(src, c2 + plain_len(src, c2))
            }),
            r is Ok && padded(old(self).reader@, after_separator(old(self).reader@, old(self).consumed()))
                == '#' ==> final(self).tokens[old(self).tokens.len() + 2].1@ == Lexeme::Scalar(
                Seq::empty(),
            ) && final(self).consumed() == after_separator(old(self).reader@, old(self).consumed()),
            r is Ok ==> final(self).tokens[old(self).tokens.len() + 1].0 == final(self).tokens[old(
                self,
            ).tokens.len() + 2].0 && at_offset(
                final(self).tokens[old(self).tokens.len() + 1].0,
                old(self).reader@,
                after_separator(old(self).reader@, old(self).consumed()),
            ),
            r is Err ==> unknown_at(r->Err_0, Seq::empty(), old(self).reader@, old(self).consumed()),
    {
        let n = self.tokens.len();
        if n == 0 {
            let e = LexErr::UnknownToken(String::new(), self.current_position);
            assert(unknown_at(e, Seq::empty(), self.reader@, self.consumed()));
            return Err(e);
        }
        let kpos = self.tokens[n - 1].0;
        match &self.tokens[n - 1].1 {
            YamlTokenType::Scalar(_) => {},
            _ => {
                let e = LexErr::UnknownToken(String::new(), self.current_position);
            assert(unknown_at(e, Seq::empty(), self.reader@, self.consumed()));
            return Err(e);
            },
        }
        // the scalar queued last was a key
        let ghost all = self.produced();
        let ghost e = self.emitted@.len();
        let key = YamlToken(kpos, YamlTokenType::Key);
        self.insert_token(0, key);
        proof {
            assert(self.produced() =~= all.insert(e + n - 1, key));
            assert(all[e + n - 1] == old(self).tokens[n - 1]);
            assert(e + n - 1 >= 1) by {
                assert(!(all[e + n - 1].1 is Start));
            }
            lemma_insert_key(all, e + n - 1, key);
            let s = self.produced();
            assert forall|i: int| 0 <= i < s.len() implies #[trigger] s[i].0.spec_index() <= self.consumed() by {
                if s[i] != key {
                    let j = choose|j: int| 0 <= j < all.len() && all[j] == s[i];
                    assert(all[j].0.spec_index() <= self.consumed());
                }
            }
            assert forall|i: int| 0 <= i < s.len() implies !(#[trigger] s[i].1 is End) by {
                if s[i] != key {
                    let j = choose|j: int| 0 <= j < all.len() && all[j] == s[i];
                    assert(!(all[j].1 is End));
                }
            }
        }
        let ghost queued = self.tokens@;
        // skip the ':' and the blank after it
        self.skip();
        if !is_end(self.first_char()) {
            self.skip();
        }
        let vpos = self.current_position;
        let ghost all2 = self.produced();
        let value = YamlToken(vpos, YamlTokenType::Value);
        self.tokens.push_back(value);
        proof {
            assert(self.produced() =~= all2.push(value));
            lemma_push_token(all2, value);
        }
        self.token_available = true;
        let ghost mid = self.tokens@;
        assert(self.consumed() == after_separator(old(self).reader@, old(self).consumed()));
        self.fetch_scalar();
        proof {
            assert(self.tokens@.drop_last() == mid);
            assert(self.tokens[n as int + 2] == self.tokens@.last());
            assert(self.tokens@.subrange(0, n + 1) =~= queued);
            assert(self.tokens[n as int + 1] == mid[n as int + 1]);
            assert(self.tokens.len() == n + 3);
            assert(self.same_but_queue(old(self)));
        }
        Ok(())
    }

    /// Some control sequences are four characters long.
    fn ensure_control_chars_len(&mut self)
        requires
            old(self).inner_wf(),
        ensures
            final(self).inner_wf(),
            final(self).same_but_reading(old(self)),
            final(self).current_position == old(self).current_position,
            final(self).buffer.len() >= 4,
    {
        self.ensure_chars(4);
    }
}

/// Scans the whole of `reader`: every token in order, or the error that stopped the
/// scan. A text of `key: value` lines, blank lines and comments gives `Start`, then
/// `Key`, the key, `Value` and the value for each line, then `End`.
pub fn tokenize(reader: Vec<char>) -> (r: Result<Vec<YamlToken>, LexErr>)
    requires
        reader@.len() < usize::MAX,
    ensures
        r is Ok ==> {
            let v = r->Ok_0@;
            &&& v.len() >= 2
            &&& v[0].1 is Start
            &&& v.last().1 is End
            &&& framed(v)
            &&& monotone(v)
        },
        kv_doc(reader@, 0) ==> r is Ok && lexemes(r->Ok_0@) == seq![Lexeme::Start]
            + kv_doc_lexemes(reader@, 0),
        kv_doc_fails(reader@, 0) ==> r is Err,
{
    let ghost text = reader@;
    let mut lexer = Lexer::new(reader);
    let mut out: Vec<YamlToken> = Vec::new();
    loop
        invariant_except_break
            lexer.failure() is None,
        invariant
            lexer.wf(),
            out@ == lexer.emitted(),
            lexer.source() == text,
            kv_doc(text, 0) ==> lexer.failure() is None,
            kv_doc(text, 0) && !lexer.has_started() ==> lexer.produced().len() == 0
                && lexer.consumed() == 0,
            kv_doc(text, 0) && lexer.has_started() ==> ({
                let p = lexer.produced();
                if p.len() > 0 && p.last().1 is End {
                    lexemes(p) == seq![Lexeme::Start] + kv_doc_lexemes(text, 0)
                } else {
                    &&& kv_doc(text, lexer.consumed())
                    &&& lexemes(p) + kv_doc_lexemes(text, lexer.consumed()) == seq![Lexeme::Start]
                        + kv_doc_lexemes(text, 0)
                }
            }),
            kv_doc_fails(text, 0) ==> lexer.failure() is Some || ({
                &&& !lexer.has_ended()
                &&& forall|i: int| 0 <= i < lexer.produced().len() ==> !(
                    #[trigger] lexer.produced()[i].1 is End)
                &&& !lexer.has_started() ==> lexer.consumed() == 0
                &&& lexer.has_started() ==> kv_doc_fails(text, lexer.consumed())
            }),
        ensures
            lexer.has_ended() || lexer.failure() is Some,
        decreases lexer.potential(),
    {
        let ghost l0 = lexer;
        let t = lexer.next();
        proof {
            if kv_doc_fails(text, 0) && lexer.failure() is None {
                let p0 = l0.produced();
                let p1 = lexer.produced();
                lemma_stream_framed(&lexer);
                if !l0.has_started() {
                    assert(p1 =~= seq![t->Some_0]);
                } else if l0.queued().len() > 0 {
                    assert(p1 =~= p0);
                } else {
                    let c = l0.consumed();
                    let tt = scan_start(text, c);
                    assert(p0 =~= l0.emitted());
                    assert(!end_char(padded(text, tt)));
                    assert(p1 =~= p0.push(t->Some_0) + lexer.queued());
                    assert forall|i: int| 0 <= i < p1.len() implies !(#[trigger] p1[i].1 is End) by {
                        if i < p0.len() {
                            assert(p1[i] == p0[i]);
                        } else if i > p0.len() {
                            assert(p1[i] == lexer.queued()[i - p0.len() - 1]);
                            assert(lexemes(lexer.queued())[i - p0.len() - 1] == p1[i].1@);
                        }
                    }
                }
                assert forall|i: int| 0 <= i < lexer.emitted().len() implies #[trigger] lexer.emitted()[i]
                    == p1[i] by {}
                if lexer.has_ended() {
                    assert(lexer.emitted()[lexer.emitted().len() - 1] == p1[lexer.emitted().len() - 1]);
                    assert(false);
                }
            }
        }
        proof {
            if kv_doc(text, 0) {
                lemma_lexemes_concat(l0.emitted(), l0.queued());
                lemma_lexemes_concat(lexer.emitted(), lexer.queued());
                let p0 = l0.produced();
                let p1 = lexer.produced();
                if !l0.has_started() {
                    let tk = t->Some_0;
                    assert(p1 =~= seq![tk]);
                    assert(lexemes(p1) =~= seq![Lexeme::Start]);
                } else if l0.queued().len() > 0 {
                    assert(p1 =~= p0);
                    assert(p1.len() > 0);
                } else if !l0.has_ended() {
                    let c = l0.consumed();
                    let tt = scan_start(text, c);
                    assert(p0 =~= l0.emitted());
                    if end_char(padded(text, tt)) {
                        let tk = t->Some_0;
                        assert(p1 =~= p0.push(tk));
                        lemma_lexemes_concat(p0, seq![tk]);
                        assert(lexemes(seq![tk]) =~= seq![Lexeme::End]);
                        assert(kv_doc_lexemes(text, c) == seq![Lexeme::End]);
                        if p0.len() > 0 && p0.last().1 is End {
                            assert(false);
                        }
                        assert(p1.last() == tk);
                    } else {
                        let sep = key_sep(text, tt);
                        assert(plain_len(text, tt) >= 1);
                        assert(!separator_at(text, tt, false));
                        let tk = t->Some_0;
                        assert(p1 =~= p0.push(tk) + lexer.queued());
                        lemma_lexemes_concat(p0.push(tk), lexer.queued());
                        lemma_lexemes_concat(p0, seq![tk]);
                        assert(lexemes(seq![tk]) =~= seq![Lexeme::Key]);
                        assert(lexemes(p1) + kv_doc_lexemes(text, lexer.consumed()) =~= lexemes(p0)
                            + kv_doc_lexemes(text, c));
                        assert(p1.last() == lexer.queued().last());
                        assert(lexemes(lexer.queued())[2] == lexer.queued().last().1@);
                        if p0.len() > 0 && p0.last().1 is End {
                            assert(false);
                        }
                    }
                }
            }
        }
        match t {
            Some(t) => out.push(t),
            None => break,
        }
    }
    proof {
        lemma_stream_framed(&lexer);
        lemma_emitted_monotone(&lexer);
    }
    match lexer.into_error() {
        Some(e) => Err(e),
        None => Ok(out),
    }
}

/// What was handed out is framed: it begins with the one `Start`, and an `End`
/// comes only last. Once the stream has ended, its last token is that `End` and
/// nothing waits in the queue.
pub proof fn lemma_stream_framed(l: &Lexer)
    requires
        l.wf(),
    ensures
        framed(l.emitted()),
        l.has_ended() ==> l.emitted().len() >= 2 && l.emitted().last().1 is End
            && l.queued().len() == 0,
{
    let e = l.emitted();
    let all = l.produced();
    assert forall|i: int| 0 <= i < e.len() implies #[trigger] e[i] == all[i] by {}
    if e.len() > 0 {
        assert(e[0] == all[0]);
    }
    assert forall|i: int| 0 <= i < e.len() - 1 implies !(#[trigger] e[i].1 is End) by {
        assert(e[i] == all[i]);
    }
    assert forall|i: int| 0 < i < e.len() implies !(#[trigger] e[i].1 is Start) by {
        assert(e[i] == all[i]);
    }
    if l.has_ended() {
        assert(all =~= e);
        assert(e[0].1 is Start);
    }
}

/// What the scanner has consumed is the index of its position.
pub proof fn lemma_consumed_is_index(l: &Lexer)
    ensures
        l.consumed() == l.position().spec_index(),
{
}

/// Positions never go back: a token handed out later began no earlier than one
/// handed out before it.
pub proof fn lemma_emitted_monotone(l: &Lexer)
    requires
        l.wf(),
    ensures
        monotone(l.emitted()),
{
    let e = l.emitted();
    let all = l.produced();
    assert forall|i: int, j: int| 0 <= i <= j < e.len() implies #[trigger] e[i].0.spec_index()
        <= #[trigger] e[j].0.spec_index() by {
        assert(e[i] == all[i] && e[j] == all[j]);
    }
}

} // verus!
