//! The shared template model: source positions and spans, diagnostics and
//! backend errors, template segments, and the token and char streams that the
//! backends parse.
use vstd::prelude::*;

use crate::text::{
    copy_str, chars_of, lemma_seq_lt_asymmetric, lemma_seq_lt_irreflexive, lemma_seq_lt_total,
    lemma_seq_lt_transitive, seq_lt, str_eq, str_lt,
};

verus! {

// ---------------------------------------------------------------------------
// Positions and spans
// ---------------------------------------------------------------------------

/// A position inside a template: the segment it lies in and the char offset in it.
#[derive(Clone, Copy, Debug, PartialEq, Eq)]
pub struct SourcePosition {
    pub token_index: usize,
    pub offset: usize,
}

/// A range of a template, from `start` to `end`.
#[derive(Clone, Copy, Debug, PartialEq, Eq)]
pub struct SourceSpan {
    pub start: SourcePosition,
    pub end: SourcePosition,
}

/// The empty span at one position.
pub open spec fn point_span(token_index: usize, offset: usize) -> SourceSpan {
    SourceSpan {
        start: SourcePosition { token_index, offset },
        end: SourcePosition { token_index, offset },
    }
}

/// The span from `a`'s start to `b`'s end.
pub open spec fn span_merged(a: SourceSpan, b: SourceSpan) -> SourceSpan {
    SourceSpan { start: a.start, end: b.end }
}

/// Merging spans: the merge of `a` and `b` is the span between `a`'s start
/// and `b`'s end, which is `a` extended to `b`'s end; merging is associative,
/// and a span merged with itself is that span.
pub proof fn law_span_merge(a: SourceSpan, b: SourceSpan, c: SourceSpan)
    ensures
        span_merged(a, b) == (SourceSpan { start: a.start, end: b.end }),
        span_merged(span_merged(a, b), c) == span_merged(a, span_merged(b, c)),
        span_merged(a, a) == a,
{
}

impl SourceSpan {
    /// The empty span at `(token_index, offset)`.
    pub fn point(token_index: usize, offset: usize) -> (r: Self)
        ensures
            r == point_span(token_index, offset),
    {
        let position = SourcePosition { token_index, offset };
        Self { start: position, end: position }
    }

    /// The span from `start` to `end`.
    pub fn between(start: SourcePosition, end: SourcePosition) -> (r: Self)
        ensures
            r.start == start,
            r.end == end,
    {
        Self { start, end }
    }

    /// The span from this span's start to `end`.
    pub fn extend(&self, end: SourcePosition) -> (r: Self)
        ensures
            r.start == self.start,
            r.end == end,
    {
        Self { start: self.start, end }
    }

    /// The span from this span's start to the end of `other`.
    pub fn merge(&self, other: &Self) -> (r: Self)
        ensures
            r == span_merged(*self, *other),
            r.start == self.start,
            r.end == other.end,
    {
        Self { start: self.start, end: other.end }
    }
}

// ---------------------------------------------------------------------------
// Diagnostics and errors
// ---------------------------------------------------------------------------

/// How serious a diagnostic is.
#[derive(Clone, Copy, Debug, PartialEq, Eq)]
pub enum DiagnosticSeverity {
    Error,
    Warning,
}

/// A string-to-string map whose keys occur once each, kept sorted by key, so
/// that two maps with the same entries are equal entry for entry.
#[derive(Debug, PartialEq, Eq)]
pub struct Metadata {
    entries: Vec<(String, String)>,
}

/// No key occurs twice among the entries.
pub open spec fn keys_distinct(entries: Seq<(String, String)>) -> bool {
    forall|i: int, j: int|
        0 <= i < entries.len() && 0 <= j < entries.len() && i != j ==> entries[i].0@
            != entries[j].0@
}

impl Clone for Metadata {
    /// A copy holding the same entries in the same order.
    fn clone(&self) -> (r: Self)
        ensures
            r@ == self@,
            r.entry_views() == self.entry_views(),
            r.wf() == self.wf(),
    {
        let mut entries: Vec<(String, String)> = Vec::new();
        let mut i: usize = 0;
        while i < self.entries.len()
            invariant
                i <= self.entries.len(),
                entries@.len() == i,
                forall|j: int| 0 <= j < i ==> #[trigger] entries@[j] == self.entries@[j],
            decreases self.entries.len() - i,
        {
            let k = self.entries[i].0.clone();
            let v = self.entries[i].1.clone();
            entries.push((k, v));
            i += 1;
        }
        let r = Metadata { entries };
        assert(r.entries@ =~= self.entries@);
        assert(r.entry_views() =~= self.entry_views());
        r
    }
}

/// The keys of the entries come in strictly increasing order.
pub open spec fn keys_sorted(entries: Seq<(String, String)>) -> bool {
    forall|i: int, j: int|
        0 <= i < j < entries.len() ==> seq_lt(#[trigger] entries[i].0@, #[trigger] entries[j].0@)
}

/// Sorted keys are distinct.
proof fn lemma_sorted_distinct(entries: Seq<(String, String)>)
    requires
        keys_sorted(entries),
    ensures
        keys_distinct(entries),
{
    assert forall|i: int, j: int|
        0 <= i < entries.len() && 0 <= j < entries.len() && i != j implies entries[i].0@
            != entries[j].0@ by {
        if entries[i].0@ == entries[j].0@ {
            lemma_seq_lt_irreflexive(entries[i].0@);
            if i < j {
                assert(seq_lt(entries[i].0@, entries[j].0@));
            } else {
                assert(seq_lt(entries[j].0@, entries[i].0@));
            }
        }
    }
}

/// The map that a list of entries with distinct keys stands for.
pub open spec fn entries_map(entries: Seq<(String, String)>) -> Map<Seq<char>, Seq<char>> {
    Map::new(
        |k: Seq<char>| exists|i: int| 0 <= i < entries.len() && entries[i].0@ == k,
        |k: Seq<char>|
            entries[choose|i: int| 0 <= i < entries.len() && entries[i].0@ == k].1@,
    )
}

impl View for Metadata {
    type V = Map<Seq<char>, Seq<char>>;

    closed spec fn view(&self) -> Map<Seq<char>, Seq<char>> {
        entries_map(self.entries@)
    }
}

impl Metadata {
    /// Entries are sorted by key, each key once.
    pub closed spec fn wf(&self) -> bool {
        keys_sorted(self.entries@)
    }

    /// The entries as pairs of char sequences, in key order.
    pub closed spec fn entry_views(&self) -> Seq<(Seq<char>, Seq<char>)> {
        Seq::new(self.entries@.len(), |i: int| (self.entries@[i].0@, self.entries@[i].1@))
    }

    /// The empty map.
    pub fn new() -> (r: Self)
        ensures
            r.wf(),
            r@ == Map::<Seq<char>, Seq<char>>::empty(),
    {
        let r = Metadata { entries: Vec::new() };
        assert(r@ =~= Map::<Seq<char>, Seq<char>>::empty());
        r
    }

    /// The number of keys.
    pub fn len(&self) -> (n: usize)
        requires
            self.wf(),
        ensures
            n == self@.len(),
    {
        proof {
            lemma_sorted_distinct(self.entries@);
            lemma_entries_map_len(self.entries@);
        }
        self.entries.len()
    }

    /// The value stored under `key`, if any.
    pub fn get(&self, key: &str) -> (r: Option<&String>)
        requires
            self.wf(),
        ensures
            r is Some <==> self@.contains_key(key@),
            r matches Some(v) ==> v@ == self@[key@],
    {
        proof {
            lemma_sorted_distinct(self.entries@);
        }
        let mut i: usize = 0;
        while i < self.entries.len()
            invariant
                i <= self.entries.len(),
                keys_distinct(self.entries@),
                forall|j: int| 0 <= j < i ==> self.entries@[j].0@ != key@,
            decreases self.entries.len() - i,
        {
            if str_eq(self.entries[i].0.as_str(), key) {
                proof {
                    lemma_entries_map_at(self.entries@, i as int);
                }
                return Some(&self.entries[i].1);
            }
            i += 1;
        }
        None
    }

    /// Stores `value` under `key`, replacing what was there.
    pub fn insert(&mut self, key: String, value: String)
        requires
            old(self).wf(),
        ensures
            final(self).wf(),
            final(self)@ == old(self)@.insert(key@, value@),
    {
        let ghost old_entries = self.entries@;
        proof {
            lemma_sorted_distinct(old_entries);
        }
        let mut i: usize = 0;
        while i < self.entries.len() && str_lt(self.entries[i].0.as_str(), key.as_str())
            invariant
                i <= self.entries.len(),
                self.entries@ == old_entries,
                old_entries == old(self).entries@,
                keys_sorted(old_entries),
                forall|j: int| 0 <= j < i ==> seq_lt(#[trigger] old_entries[j].0@, key@),
            decreases self.entries.len() - i,
        {
            i += 1;
        }
        if i < self.entries.len() && str_eq(self.entries[i].0.as_str(), key.as_str()) {
            let k = self.entries[i].0.clone();
            self.entries.set(i, (k, value));
            proof {
                lemma_entries_map_replace(old_entries, i as int, value);
                assert(self.entries@ == old_entries.update(i as int, (old_entries[i as int].0, value)));
                assert(old_entries[i as int].0@ == key@);
                assert(keys_sorted(self.entries@)) by {
                    assert forall|a: int, b: int| 0 <= a < b < self.entries@.len() implies seq_lt(
                        #[trigger] self.entries@[a].0@,
                        #[trigger] self.entries@[b].0@,
                    ) by {
                        assert(seq_lt(old_entries[a].0@, old_entries[b].0@));
                    }
                }
            }
            return;
        }
        proof {
            assert forall|j: int| 0 <= j < old_entries.len() implies old_entries[j].0@ != key@ by {
                if j < i {
                    lemma_seq_lt_irreflexive(key@);
                } else if j == i {
                } else {
                    if old_entries[j].0@ == key@ {
                        assert(seq_lt(old_entries[i as int].0@, old_entries[j].0@));
                        lemma_seq_lt_asymmetric(old_entries[i as int].0@, key@);
                    }
                }
            }
            if i < old_entries.len() {
                lemma_seq_lt_total(old_entries[i as int].0@, key@);
            }
        }
        self.entries.insert(i, (key, value));
        proof {
            let e2 = self.entries@;
            assert(e2 == old_entries.insert(i as int, (key, value)));
            lemma_entries_map_insert_at(old_entries, i as int, key, value);
            assert forall|a: int, b: int| 0 <= a < b < e2.len() implies seq_lt(
                #[trigger] e2[a].0@,
                #[trigger] e2[b].0@,
            ) by {
                if b < i {
                    assert(seq_lt(old_entries[a].0@, old_entries[b].0@));
                } else if b == i {
                    assert(seq_lt(old_entries[a].0@, key@));
                } else if a < i {
                    assert(seq_lt(old_entries[a].0@, old_entries[b - 1].0@));
                } else if a == i {
                    if b - 1 == i {
                    } else {
                        assert(seq_lt(old_entries[i as int].0@, old_entries[b - 1].0@));
                        lemma_seq_lt_transitive(key@, old_entries[i as int].0@, old_entries[b - 1].0@);
                    }
                } else {
                    assert(seq_lt(old_entries[a - 1].0@, old_entries[b - 1].0@));
                }
            }
        }
    }
}

/// The key at position `i` of one sorted list is found at the same position
/// in another sorted list with the same map, when the keys before `i` agree.
proof fn lemma_sorted_key_at(e1: Seq<(String, String)>, e2: Seq<(String, String)>, i: int)
    requires
        keys_sorted(e1),
        keys_sorted(e2),
        entries_map(e1) == entries_map(e2),
        0 <= i < e1.len(),
        i < e2.len(),
        forall|j: int| 0 <= j < i ==> e1[j].0@ == e2[j].0@,
    ensures
        e1[i].0@ == e2[i].0@,
{
    lemma_sorted_distinct(e1);
    lemma_sorted_distinct(e2);
    let k1 = e1[i].0@;
    let k2 = e2[i].0@;
    if k1 != k2 {
        lemma_seq_lt_total(k1, k2);
        if seq_lt(k1, k2) {
            lemma_entries_map_at(e1, i);
            assert(entries_map(e2).contains_key(k1));
            let j = choose|j: int| 0 <= j < e2.len() && e2[j].0@ == k1;
            if j < i {
                assert(e1[j].0@ == k1);
            } else if j > i {
                assert(seq_lt(e2[i].0@, e2[j].0@));
                lemma_seq_lt_asymmetric(k1, k2);
            }
        } else {
            lemma_entries_map_at(e2, i);
            assert(entries_map(e1).contains_key(k2));
            let j = choose|j: int| 0 <= j < e1.len() && e1[j].0@ == k2;
            if j < i {
                assert(e2[j].0@ == k2);
            } else if j > i {
                assert(seq_lt(e1[i].0@, e1[j].0@));
                lemma_seq_lt_asymmetric(k2, k1);
            }
        }
    }
}

proof fn lemma_sorted_keys_agree(e1: Seq<(String, String)>, e2: Seq<(String, String)>, n: int)
    requires
        keys_sorted(e1),
        keys_sorted(e2),
        entries_map(e1) == entries_map(e2),
        0 <= n <= e1.len(),
        n <= e2.len(),
    ensures
        forall|j: int| 0 <= j < n ==> #[trigger] e1[j].0@ == e2[j].0@,
    decreases n,
{
    if n > 0 {
        lemma_sorted_keys_agree(e1, e2, n - 1);
        lemma_sorted_key_at(e1, e2, n - 1);
    }
}

/// Two metadata maps with the same keys and values hold their entries in the
/// same order, so they are equal entry for entry, whatever order the keys
/// were inserted in.
pub proof fn law_metadata_is_canonical(a: Metadata, b: Metadata)
    requires
        a.wf(),
        b.wf(),
        a@ == b@,
    ensures
        a.entry_views() == b.entry_views(),
{
    let e1 = a.entries@;
    let e2 = b.entries@;
    lemma_sorted_distinct(e1);
    lemma_sorted_distinct(e2);
    lemma_entries_map_len(e1);
    lemma_entries_map_len(e2);
    lemma_sorted_keys_agree(e1, e2, e1.len() as int);
    assert forall|j: int| 0 <= j < e1.len() implies #[trigger] e1[j].1@ == e2[j].1@ by {
        lemma_entries_map_at(e1, j);
        lemma_entries_map_at(e2, j);
        assert(e1[j].0@ == e2[j].0@);
    }
    assert(a.entry_views() =~= b.entry_views());
}

proof fn lemma_entries_map_insert_at(
    entries: Seq<(String, String)>,
    i: int,
    key: String,
    value: String,
)
    requires
        keys_distinct(entries),
        0 <= i <= entries.len(),
        forall|j: int| 0 <= j < entries.len() ==> entries[j].0@ != key@,
    ensures
        keys_distinct(entries.insert(i, (key, value))),
        entries_map(entries.insert(i, (key, value))) == entries_map(entries).insert(key@, value@),
{
    let e2 = entries.insert(i, (key, value));
    assert forall|a: int, b: int|
        0 <= a < e2.len() && 0 <= b < e2.len() && a != b implies e2[a].0@ != e2[b].0@ by {
        let oa = if a < i { a } else { a - 1 };
        let ob = if b < i { b } else { b - 1 };
        if a != i && b != i {
            assert(e2[a] == entries[oa]);
            assert(e2[b] == entries[ob]);
        } else if a == i {
            assert(e2[b] == entries[ob]);
        } else {
            assert(e2[a] == entries[oa]);
        }
    }
    assert forall|kk: Seq<char>| #[trigger]
        entries_map(e2).contains_key(kk) == entries_map(entries).insert(key@, value@).contains_key(
            kk,
        ) by {
        if entries_map(entries).contains_key(kk) {
            let j = choose|j: int| 0 <= j < entries.len() && entries[j].0@ == kk;
            if j < i {
                assert(e2[j].0@ == kk);
            } else {
                assert(e2[j + 1].0@ == kk);
            }
        }
        if kk == key@ {
            assert(e2[i].0@ == kk);
        }
        if entries_map(e2).contains_key(kk) && kk != key@ {
            let j = choose|j: int| 0 <= j < e2.len() && e2[j].0@ == kk;
            if j < i {
                assert(entries[j].0@ == kk);
            } else {
                assert(entries[j - 1].0@ == kk);
            }
        }
    }
    assert forall|kk: Seq<char>| #[trigger]
        entries_map(e2).contains_key(kk) implies entries_map(e2)[kk] == entries_map(
        entries,
    ).insert(key@, value@)[kk] by {
        let j = choose|j: int| 0 <= j < e2.len() && e2[j].0@ == kk;
        if kk == key@ {
            assert(e2[i].0@ == kk);
            assert(j == i);
        } else {
            let oj = if j < i { j } else { j - 1 };
            assert(entries[oj].0@ == kk);
            let j1 = choose|j1: int| 0 <= j1 < entries.len() && entries[j1].0@ == kk;
            assert(j1 == oj);
        }
    }
    assert(entries_map(e2) =~= entries_map(entries).insert(key@, value@));
}

proof fn lemma_entries_map_at(entries: Seq<(String, String)>, i: int)
    requires
        keys_distinct(entries),
        0 <= i < entries.len(),
    ensures
        entries_map(entries).contains_key(entries[i].0@),
        entries_map(entries)[entries[i].0@] == entries[i].1@,
{
    let k = entries[i].0@;
    assert(entries[i].0@ == k);
    let c = choose|j: int| 0 <= j < entries.len() && entries[j].0@ == k;
    assert(c == i);
}

proof fn lemma_entries_map_replace(entries: Seq<(String, String)>, i: int, value: String)
    requires
        keys_distinct(entries),
        0 <= i < entries.len(),
    ensures
        keys_distinct(entries.update(i, (entries[i].0, value))),
        entries_map(entries.update(i, (entries[i].0, value))) == entries_map(entries).insert(
            entries[i].0@,
            value@,
        ),
{
    let e2 = entries.update(i, (entries[i].0, value));
    let k = entries[i].0@;
    assert forall|kk: Seq<char>| #[trigger]
        entries_map(e2).contains_key(kk) == entries_map(entries).insert(k, value@).contains_key(
            kk,
        ) by {
        if entries_map(entries).contains_key(kk) {
            let j = choose|j: int| 0 <= j < entries.len() && entries[j].0@ == kk;
            assert(e2[j].0@ == kk);
        }
        if entries_map(e2).contains_key(kk) {
            let j = choose|j: int| 0 <= j < e2.len() && e2[j].0@ == kk;
            assert(entries[j].0@ == kk);
        }
    }
    assert forall|kk: Seq<char>| #[trigger]
        entries_map(e2).contains_key(kk) implies entries_map(e2)[kk] == entries_map(
        entries,
    ).insert(k, value@)[kk] by {
        let j = choose|j: int| 0 <= j < e2.len() && e2[j].0@ == kk;
        assert(entries[j].0@ == kk);
        let j1 = choose|j1: int| 0 <= j1 < entries.len() && entries[j1].0@ == kk;
        assert(j1 == j);
    }
    assert(entries_map(e2) =~= entries_map(entries).insert(k, value@));
}

proof fn lemma_entries_map_push(entries: Seq<(String, String)>, key: String, value: String)
    requires
        keys_distinct(entries),
        forall|j: int| 0 <= j < entries.len() ==> entries[j].0@ != key@,
    ensures
        keys_distinct(entries.push((key, value))),
        entries_map(entries.push((key, value))) == entries_map(entries).insert(key@, value@),
{
    let e2 = entries.push((key, value));
    let n = entries.len() as int;
    assert forall|kk: Seq<char>| #[trigger]
        entries_map(e2).contains_key(kk) == entries_map(entries).insert(key@, value@).contains_key(
            kk,
        ) by {
        if entries_map(entries).contains_key(kk) {
            let j = choose|j: int| 0 <= j < entries.len() && entries[j].0@ == kk;
            assert(e2[j].0@ == kk);
        }
        if kk == key@ {
            assert(e2[n].0@ == kk);
        }
        if entries_map(e2).contains_key(kk) && kk != key@ {
            let j = choose|j: int| 0 <= j < e2.len() && e2[j].0@ == kk;
            assert(entries[j].0@ == kk);
        }
    }
    assert forall|kk: Seq<char>| #[trigger]
        entries_map(e2).contains_key(kk) implies entries_map(e2)[kk] == entries_map(
        entries,
    ).insert(key@, value@)[kk] by {
        let j = choose|j: int| 0 <= j < e2.len() && e2[j].0@ == kk;
        if kk == key@ {
            assert(j == n);
        } else {
            assert(entries[j].0@ == kk);
            let j1 = choose|j1: int| 0 <= j1 < entries.len() && entries[j1].0@ == kk;
            assert(j1 == j);
        }
    }
    assert(entries_map(e2) =~= entries_map(entries).insert(key@, value@));
}

proof fn lemma_entries_map_len(entries: Seq<(String, String)>)
    requires
        keys_distinct(entries),
    ensures
        entries_map(entries).dom().finite(),
        entries_map(entries).len() == entries.len(),
    decreases entries.len(),
{
    let m = entries_map(entries);
    if entries.len() == 0 {
        assert(m.dom() =~= Set::<Seq<char>>::empty());
    } else {
        let prev = entries.drop_last();
        let last = entries.last();
        assert(keys_distinct(prev));
        lemma_entries_map_len(prev);
        lemma_entries_map_push(prev, last.0, last.1);
        assert(prev.push(last) == entries);
        assert(!entries_map(prev).contains_key(last.0@)) by {
            if entries_map(prev).contains_key(last.0@) {
                let j = choose|j: int| 0 <= j < prev.len() && prev[j].0@ == last.0@;
                assert(entries[j].0@ == entries[entries.len() - 1].0@);
            }
        }
        assert(m.dom() =~= entries_map(prev).dom().insert(last.0@));
    }
}

/// One finding about a template: a code, a message, how serious it is, where
/// it is, and extra key/value details.
#[derive(Debug, PartialEq, Eq)]
pub struct Diagnostic {
    pub code: String,
    pub message: String,
    pub severity: DiagnosticSeverity,
    pub span: Option<SourceSpan>,
    pub metadata: Metadata,
}

impl Diagnostic {
    /// An error diagnostic with no metadata.
    pub fn error(code: &str, message: &str, span: Option<SourceSpan>) -> (r: Self)
        ensures
            r.code@ == code@,
            r.message@ == message@,
            r.severity == DiagnosticSeverity::Error,
            r.span == span,
            r.metadata.wf(),
            r.metadata@ == Map::<Seq<char>, Seq<char>>::empty(),
    {
        Self {
            code: copy_str(code),
            message: copy_str(message),
            severity: DiagnosticSeverity::Error,
            span,
            metadata: Metadata::new(),
        }
    }
}

/// The family of a backend failure.
#[derive(Clone, Copy, Debug, PartialEq, Eq)]
pub enum ErrorKind {
    Parse,
    Semantic,
    Unrepresentable,
}

/// A failure of a backend: its kind, a message, and the diagnostics behind it.
#[derive(Debug, PartialEq, Eq)]
pub struct BackendError {
    pub kind: ErrorKind,
    pub message: String,
    pub diagnostics: Vec<Diagnostic>,
}

/// The shape of every error that the constructors build: one error diagnostic
/// that carries the code, the message and the span, and no metadata.
pub open spec fn error_shape(
    e: BackendError,
    kind: ErrorKind,
    code: Seq<char>,
    message: Seq<char>,
    span: Option<SourceSpan>,
) -> bool {
    &&& e.kind == kind
    &&& e.message@ == message
    &&& e.diagnostics@.len() == 1
    &&& e.diagnostics@[0].code@ == code
    &&& e.diagnostics@[0].message@ == message
    &&& e.diagnostics@[0].severity == DiagnosticSeverity::Error
    &&& e.diagnostics@[0].span == span
    &&& e.diagnostics@[0].metadata.wf()
    &&& e.diagnostics@[0].metadata@ == Map::<Seq<char>, Seq<char>>::empty()
}

/// The diagnostics of an error all have distinct metadata keys.
pub open spec fn error_wf(e: BackendError) -> bool {
    forall|i: int| 0 <= i < e.diagnostics@.len() ==> #[trigger] e.diagnostics@[i].metadata.wf()
}

/// A diagnostic as a value, its metadata as a map.
pub type DiagnosticModel = (Seq<char>, Seq<char>, DiagnosticSeverity, Option<SourceSpan>, Map<
    Seq<char>,
    Seq<char>,
>);

/// An error as a value: its kind, its message and its diagnostics, each
/// diagnostic's metadata as a map.
pub type ErrorModel = (ErrorKind, Seq<char>, Seq<DiagnosticModel>);

/// A diagnostic as a value, its metadata as a map.
pub open spec fn diagnostic_model(d: Diagnostic) -> DiagnosticModel {
    (d.code@, d.message@, d.severity, d.span, d.metadata@)
}

/// An error as a value, each diagnostic's metadata as a map.
pub open spec fn error_model(e: BackendError) -> ErrorModel {
    (
        e.kind,
        e.message@,
        Seq::new(e.diagnostics@.len(), |i: int| diagnostic_model(e.diagnostics@[i])),
    )
}

/// A diagnostic as text: its fields, its metadata entries in key order.
pub open spec fn diagnostic_text(d: Diagnostic) -> (
    Seq<char>,
    Seq<char>,
    DiagnosticSeverity,
    Option<SourceSpan>,
    Seq<(Seq<char>, Seq<char>)>,
) {
    (d.code@, d.message@, d.severity, d.span, d.metadata.entry_views())
}

/// An error as text: its kind, its message, and its diagnostics as text.
pub open spec fn error_text(e: BackendError) -> (ErrorKind, Seq<char>, Seq<
    (Seq<char>, Seq<char>, DiagnosticSeverity, Option<SourceSpan>, Seq<(Seq<char>, Seq<char>)>),
>) {
    (e.kind, e.message@, Seq::new(e.diagnostics@.len(), |i: int| diagnostic_text(e.diagnostics@[i])))
}

/// What adding `key = value` to the metadata of the first diagnostic makes of
/// an error, as a value.
pub open spec fn metadata_added(m: ErrorModel, key: Seq<char>, value: Seq<char>) -> ErrorModel {
    if m.2.len() == 0 {
        m
    } else {
        let d = m.2[0];
        (m.0, m.1, m.2.update(0, (d.0, d.1, d.2, d.3, d.4.insert(key, value))))
    }
}

/// Adding metadata: a later value for a key replaces an earlier one, and
/// values for two different keys may be added in either order.
pub proof fn law_metadata_last_write_wins_and_keys_commute(
    m: ErrorModel,
    k1: Seq<char>,
    k2: Seq<char>,
    v1: Seq<char>,
    v2: Seq<char>,
)
    ensures
        metadata_added(metadata_added(m, k1, v1), k1, v2) == metadata_added(m, k1, v2),
        k1 != k2 ==> metadata_added(metadata_added(m, k1, v1), k2, v2) == metadata_added(
            metadata_added(m, k2, v2),
            k1,
            v1,
        ),
{
    if m.2.len() > 0 {
        let d = m.2[0];
        assert(d.4.insert(k1, v1).insert(k1, v2) =~= d.4.insert(k1, v2));
        assert(metadata_added(metadata_added(m, k1, v1), k1, v2).2 =~= metadata_added(m, k1, v2).2);
        if k1 != k2 {
            assert(d.4.insert(k1, v1).insert(k2, v2) =~= d.4.insert(k2, v2).insert(k1, v1));
            assert(metadata_added(metadata_added(m, k1, v1), k2, v2).2 =~= metadata_added(
                metadata_added(m, k2, v2),
                k1,
                v1,
            ).2);
        }
    }
}

/// Adding metadata to copies of one error: writing `k = v1` then `k = v2`
/// gives the same error, as text, as writing `k = v2` alone; and writes to two
/// different keys give the same error in either order. `a` and `b` are what
/// `with_metadata` makes of copies of `e` (its `ensures` and `clone`'s fix
/// their values).
pub proof fn law_with_metadata_last_write_wins_and_keys_commute(
    e: BackendError,
    a: BackendError,
    b: BackendError,
    c: BackendError,
    d: BackendError,
    k1: Seq<char>,
    k2: Seq<char>,
    v1: Seq<char>,
    v2: Seq<char>,
)
    requires
        error_wf(a),
        error_wf(b),
        error_wf(c),
        error_wf(d),
        error_model(a) == metadata_added(metadata_added(error_model(e), k1, v1), k1, v2),
        error_model(b) == metadata_added(error_model(e), k1, v2),
        error_model(c) == metadata_added(metadata_added(error_model(e), k1, v1), k2, v2),
        error_model(d) == metadata_added(metadata_added(error_model(e), k2, v2), k1, v1),
    ensures
        error_text(a) == error_text(b),
        k1 != k2 ==> error_text(c) == error_text(d),
{
    law_metadata_last_write_wins_and_keys_commute(error_model(e), k1, k2, v1, v2);
    law_error_model_fixes_text(a, b);
    if k1 != k2 {
        law_error_model_fixes_text(c, d);
    }
}

/// Two well-formed errors that are equal as values are equal as text: their
/// metadata entries come in the same order, however they were added.
pub proof fn law_error_model_fixes_text(a: BackendError, b: BackendError)
    requires
        error_wf(a),
        error_wf(b),
        error_model(a) == error_model(b),
    ensures
        error_text(a) == error_text(b),
{
    assert(a.diagnostics@.len() == error_model(a).2.len());
    assert forall|i: int| 0 <= i < a.diagnostics@.len() implies #[trigger] diagnostic_text(
        a.diagnostics@[i],
    ) == diagnostic_text(b.diagnostics@[i]) by {
        assert(error_model(a).2[i] == error_model(b).2[i]);
        law_metadata_is_canonical(a.diagnostics@[i].metadata, b.diagnostics@[i].metadata);
    }
    assert(error_text(a).2 =~= error_text(b).2);
}

impl Clone for Diagnostic {
    /// A copy with the same fields and the same metadata entries.
    fn clone(&self) -> (r: Self)
        ensures
            diagnostic_model(r) == diagnostic_model(*self),
            diagnostic_text(r) == diagnostic_text(*self),
            r.metadata.wf() == self.metadata.wf(),
    {
        Diagnostic {
            code: self.code.clone(),
            message: self.message.clone(),
            severity: self.severity,
            span: self.span,
            metadata: self.metadata.clone(),
        }
    }
}

impl Clone for BackendError {
    /// A copy that is the same error, as a value and as text.
    fn clone(&self) -> (r: Self)
        ensures
            error_model(r) == error_model(*self),
            error_text(r) == error_text(*self),
            error_wf(r) == error_wf(*self),
    {
        let mut diagnostics: Vec<Diagnostic> = Vec::new();
        let mut i: usize = 0;
        while i < self.diagnostics.len()
            invariant
                i <= self.diagnostics.len(),
                diagnostics@.len() == i,
                forall|j: int|
                    0 <= j < i ==> diagnostic_model(#[trigger] diagnostics@[j]) == diagnostic_model(
                        self.diagnostics@[j],
                    ) && diagnostic_text(diagnostics@[j]) == diagnostic_text(self.diagnostics@[j])
                        && diagnostics@[j].metadata.wf() == self.diagnostics@[j].metadata.wf(),
            decreases self.diagnostics.len() - i,
        {
            let d = self.diagnostics[i].clone();
            diagnostics.push(d);
            i += 1;
        }
        let r = BackendError { kind: self.kind, message: self.message.clone(), diagnostics };
        assert(error_model(r).2 =~= error_model(*self).2);
        assert(error_text(r).2 =~= error_text(*self).2);
        assert(error_wf(r) == error_wf(*self)) by {
            if error_wf(*self) {
                assert forall|j: int| 0 <= j < r.diagnostics@.len() implies #[trigger] r.diagnostics@[
                    j
                ].metadata.wf() by {
                    assert(diagnostics@[j].metadata.wf() == self.diagnostics@[j].metadata.wf());
                }
            }
            if error_wf(r) {
                assert forall|j: int| 0 <= j < self.diagnostics@.len() implies #[trigger] self.diagnostics@[
                    j
                ].metadata.wf() by {
                    assert(diagnostics@[j].metadata.wf() == self.diagnostics@[j].metadata.wf());
                }
            }
        }
        r
    }
}

impl BackendError {
    /// A parse error with the generic code `tstring.parse` and no span.
    pub fn parse(message: &str) -> (r: Self)
        ensures
            error_shape(r, ErrorKind::Parse, "tstring.parse"@, message@, None),
    {
        Self::new(ErrorKind::Parse, "tstring.parse", message, None)
    }

    /// A parse error with its own code and span.
    pub fn parse_at(code: &str, message: &str, span: Option<SourceSpan>) -> (r: Self)
        ensures
            error_shape(r, ErrorKind::Parse, code@, message@, span),
    {
        Self::new(ErrorKind::Parse, code, message, span)
    }

    /// A semantic error with the generic code `tstring.semantic` and no span.
    pub fn semantic(message: &str) -> (r: Self)
        ensures
            error_shape(r, ErrorKind::Semantic, "tstring.semantic"@, message@, None),
    {
        Self::new(ErrorKind::Semantic, "tstring.semantic", message, None)
    }

    /// A semantic error with its own code and span.
    pub fn semantic_at(code: &str, message: &str, span: Option<SourceSpan>) -> (r: Self)
        ensures
            error_shape(r, ErrorKind::Semantic, code@, message@, span),
    {
        Self::new(ErrorKind::Semantic, code, message, span)
    }

    /// An unrepresentable-value error with the generic code
    /// `tstring.unrepresentable` and no span.
    pub fn unrepresentable(message: &str) -> (r: Self)
        ensures
            error_shape(r, ErrorKind::Unrepresentable, "tstring.unrepresentable"@, message@, None),
    {
        Self::new(ErrorKind::Unrepresentable, "tstring.unrepresentable", message, None)
    }

    /// An unrepresentable-value error with its own code and span.
    pub fn unrepresentable_at(code: &str, message: &str, span: Option<SourceSpan>) -> (r: Self)
        ensures
            error_shape(r, ErrorKind::Unrepresentable, code@, message@, span),
    {
        Self::new(ErrorKind::Unrepresentable, code, message, span)
    }

    /// Adds `key = value` to the metadata of the first diagnostic, if there is one.
    pub fn with_metadata(self, key: &str, value: &str) -> (r: Self)
        requires
            error_wf(self),
        ensures
            error_wf(r),
            error_model(r) == metadata_added(error_model(self), key@, value@),
            r.kind == self.kind,
            r.message == self.message,
            r.diagnostics@.len() == self.diagnostics@.len(),
            forall|i: int|
                1 <= i < r.diagnostics@.len() ==> #[trigger] r.diagnostics@[i]
                    == self.diagnostics@[i],
            r.diagnostics@.len() > 0 ==> {
                &&& r.diagnostics@[0].code == self.diagnostics@[0].code
                &&& r.diagnostics@[0].message == self.diagnostics@[0].message
                &&& r.diagnostics@[0].severity == self.diagnostics@[0].severity
                &&& r.diagnostics@[0].span == self.diagnostics@[0].span
                &&& r.diagnostics@[0].metadata@ == self.diagnostics@[0].metadata@.insert(
                    key@,
                    value@,
                )
            },
    {
        let mut this = self;
        if this.diagnostics.len() > 0 {
            let mut primary = this.diagnostics.remove(0);
            assert(primary.metadata.wf());
            primary.metadata.insert(copy_str(key), copy_str(value));
            this.diagnostics.insert(0, primary);
            proof {
                assert forall|i: int| 1 <= i < this.diagnostics@.len() implies #[trigger]
                    this.diagnostics@[i] == self.diagnostics@[i] by {}
                assert(error_model(this).2 =~= metadata_added(error_model(self), key@, value@).2);
            }
        }
        this
    }

    /// The message, as the error displays itself.
    pub fn display(&self) -> (r: String)
        ensures
            r@ == self.message@,
    {
        copy_str(self.message.as_str())
    }

    fn new(kind: ErrorKind, code: &str, message: &str, span: Option<SourceSpan>) -> (r: Self)
        ensures
            error_shape(r, kind, code@, message@, span),
    {
        let diagnostic = Diagnostic::error(code, message, span);
        let mut diagnostics = Vec::new();
        diagnostics.push(diagnostic);
        Self { kind, message: copy_str(message), diagnostics }
    }
}

// ---------------------------------------------------------------------------
// Normalized dates and times
// ---------------------------------------------------------------------------

/// A date, valued as it was written.
#[derive(Clone, Copy, Debug, PartialEq, Eq)]
pub struct NormalizedDate {
    pub year: i32,
    pub month: u8,
    pub day: u8,
}

/// A time of day, valued as it was written.
#[derive(Clone, Copy, Debug, PartialEq, Eq)]
pub struct NormalizedTime {
    pub hour: u8,
    pub minute: u8,
    pub second: u8,
    pub nanosecond: u32,
}

/// A date and time with an offset from UTC in minutes.
#[derive(Clone, Debug, PartialEq, Eq)]
pub struct NormalizedOffsetDateTime {
    pub date: NormalizedDate,
    pub time: NormalizedTime,
    pub offset_minutes: i16,
}

/// A date and time without an offset.
#[derive(Clone, Debug, PartialEq, Eq)]
pub struct NormalizedLocalDateTime {
    pub date: NormalizedDate,
    pub time: NormalizedTime,
}

/// The four families of dates and times.
#[derive(Clone, Debug, PartialEq, Eq)]
pub enum NormalizedTemporal {
    OffsetDateTime(NormalizedOffsetDateTime),
    LocalDateTime(NormalizedLocalDateTime),
    LocalDate(NormalizedDate),
    LocalTime(NormalizedTime),
}

// ---------------------------------------------------------------------------
// Templates, tokens and the char stream
// ---------------------------------------------------------------------------

/// One `{...}` replacement field of a template: its expression, the optional
/// `!conversion`, the `:format_spec`, its index among the template's
/// interpolations and, where known, the raw `{...}` text.
#[derive(Debug, PartialEq, Eq)]
pub struct TemplateInterpolation {
    pub expression: String,
    pub conversion: Option<String>,
    pub format_spec: String,
    pub interpolation_index: usize,
    pub raw_source: Option<String>,
}

/// A copy of an optional string.
pub fn clone_opt_string(s: &Option<String>) -> (r: Option<String>)
    ensures
        r == *s,
{
    match s {
        Some(v) => Some(v.clone()),
        None => None,
    }
}

impl Clone for TemplateInterpolation {
    fn clone(&self) -> (r: Self)
        ensures
            r == *self,
    {
        TemplateInterpolation {
            expression: self.expression.clone(),
            conversion: clone_opt_string(&self.conversion),
            format_spec: self.format_spec.clone(),
            interpolation_index: self.interpolation_index,
            raw_source: clone_opt_string(&self.raw_source),
        }
    }
}

/// What an interpolation is called in messages: `slot` when its expression is
/// empty, else the expression.
pub open spec fn expression_label_of(i: TemplateInterpolation) -> Seq<char> {
    if i.expression@.len() == 0 {
        "slot"@
    } else {
        i.expression@
    }
}

impl TemplateInterpolation {
    /// The expression, or `slot` when it is empty.
    pub fn expression_label(&self) -> (r: &str)
        ensures
            r@ == expression_label_of(*self),
    {
        if self.expression.as_str().is_empty() {
            "slot"
        } else {
            self.expression.as_str()
        }
    }
}

/// A static-text token with its segment index and span.
#[derive(Debug, PartialEq, Eq)]
pub struct StaticTextToken {
    pub text: String,
    pub token_index: usize,
    pub span: SourceSpan,
}

/// An interpolation token with its indices and span.
#[derive(Debug, PartialEq, Eq)]
pub struct InterpolationToken {
    pub interpolation: TemplateInterpolation,
    pub interpolation_index: usize,
    pub token_index: usize,
    pub span: SourceSpan,
}

/// One token per template segment.
#[derive(Debug, PartialEq, Eq)]
pub enum TemplateToken {
    StaticText(StaticTextToken),
    Interpolation(InterpolationToken),
}

/// One element of the char stream that the backends parse.
#[derive(Debug, PartialEq, Eq)]
pub enum StreamItem {
    Char { ch: char, span: SourceSpan },
    Interpolation {
        interpolation: TemplateInterpolation,
        interpolation_index: usize,
        span: SourceSpan,
    },
    Eof { span: SourceSpan },
}

impl Clone for StreamItem {
    fn clone(&self) -> (r: Self)
        ensures
            r == *self,
    {
        match self {
            StreamItem::Char { ch, span } => StreamItem::Char { ch: *ch, span: *span },
            StreamItem::Interpolation { interpolation, interpolation_index, span } =>
                StreamItem::Interpolation {
                    interpolation: interpolation.clone(),
                    interpolation_index: *interpolation_index,
                    span: *span,
                },
            StreamItem::Eof { span } => StreamItem::Eof { span: *span },
        }
    }
}

/// The span of a stream item.
pub open spec fn item_span(item: StreamItem) -> SourceSpan {
    match item {
        StreamItem::Char { span, .. } => span,
        StreamItem::Interpolation { span, .. } => span,
        StreamItem::Eof { span } => span,
    }
}

/// The char of a stream item, if it is a char.
pub open spec fn item_char(item: StreamItem) -> Option<char> {
    match item {
        StreamItem::Char { ch, .. } => Some(ch),
        _ => None,
    }
}

/// The interpolation index of a stream item, if it is an interpolation.
pub open spec fn item_interpolation_index(item: StreamItem) -> Option<usize> {
    match item {
        StreamItem::Interpolation { interpolation_index, .. } => Some(interpolation_index),
        _ => None,
    }
}

/// The name of a stream item's kind.
pub open spec fn item_kind(item: StreamItem) -> Seq<char> {
    match item {
        StreamItem::Char { .. } => "char"@,
        StreamItem::Interpolation { .. } => "interpolation"@,
        StreamItem::Eof { .. } => "eof"@,
    }
}

/// The accessors of a stream item agree: it has an interpolation index
/// exactly when it has an interpolation, exactly when its kind is
/// `interpolation`; and then it has no char.
pub proof fn law_stream_item_accessors_agree(item: StreamItem)
    ensures
        item_interpolation_index(item) is Some <==> item is Interpolation,
        item_interpolation_index(item) is Some <==> item_kind(item) == "interpolation"@,
        item_interpolation_index(item) is Some ==> item_char(item) is None,
{
    reveal_strlit("interpolation");
    reveal_strlit("char");
    reveal_strlit("eof");
    assert("char"@.len() != "interpolation"@.len());
    assert("eof"@.len() != "interpolation"@.len());
}

impl StreamItem {
    /// `char`, `interpolation` or `eof`.
    pub fn kind(&self) -> (r: &'static str)
        ensures
            r@ == item_kind(*self),
    {
        match self {
            Self::Char { .. } => "char",
            Self::Interpolation { .. } => "interpolation",
            Self::Eof { .. } => "eof",
        }
    }

    /// The char, for a char item.
    pub fn char(&self) -> (r: Option<char>)
        ensures
            r == item_char(*self),
    {
        match self {
            Self::Char { ch, .. } => Some(*ch),
            _ => None,
        }
    }

    /// The interpolation, for an interpolation item.
    pub fn interpolation(&self) -> (r: Option<&TemplateInterpolation>)
        ensures
            r == (match *self {
                StreamItem::Interpolation { interpolation, .. } => Some(&interpolation),
                _ => None,
            }),
    {
        match self {
            Self::Interpolation { interpolation, .. } => Some(interpolation),
            _ => None,
        }
    }

    /// The interpolation index, for an interpolation item.
    pub fn interpolation_index(&self) -> (r: Option<usize>)
        ensures
            r == item_interpolation_index(*self),
    {
        match self {
            Self::Interpolation { interpolation_index, .. } => Some(*interpolation_index),
            _ => None,
        }
    }

    /// The span of the item.
    pub fn span(&self) -> (r: &SourceSpan)
        ensures
            *r == item_span(*self),
    {
        match self {
            Self::Char { span, .. } | Self::Interpolation { span, .. } | Self::Eof { span } => span,
        }
    }
}

/// One piece of a template: static text or an interpolation.
#[derive(Debug, PartialEq, Eq)]
pub enum TemplateSegment {
    StaticText(String),
    Interpolation(TemplateInterpolation),
}

impl Clone for TemplateSegment {
    fn clone(&self) -> (r: Self)
        ensures
            r == *self,
    {
        match self {
            TemplateSegment::StaticText(t) => TemplateSegment::StaticText(t.clone()),
            TemplateSegment::Interpolation(i) => TemplateSegment::Interpolation(i.clone()),
        }
    }
}

/// A template: its segments in order.
#[derive(Debug, PartialEq, Eq)]
pub struct TemplateInput {
    pub segments: Vec<TemplateSegment>,
}

/// The token of segment `token_index`.
pub open spec fn token_of(segment: TemplateSegment, token_index: usize) -> TemplateToken {
    match segment {
        TemplateSegment::StaticText(text) => TemplateToken::StaticText(
            StaticTextToken {
                text,
                token_index,
                span: SourceSpan {
                    start: SourcePosition { token_index, offset: 0 },
                    end: SourcePosition { token_index, offset: text@.len() as usize },
                },
            },
        ),
        TemplateSegment::Interpolation(interpolation) => TemplateToken::Interpolation(
            InterpolationToken {
                interpolation,
                interpolation_index: interpolation.interpolation_index,
                token_index,
                span: point_span(token_index, 0),
            },
        ),
    }
}

/// The tokens of a template: one per segment, in order.
pub open spec fn tokens_of(segments: Seq<TemplateSegment>) -> Seq<TemplateToken> {
    Seq::new(segments.len(), |i: int| token_of(segments[i], i as usize))
}

/// The span of the char at `offset` of segment `token_index`.
pub open spec fn char_span(token_index: usize, offset: int) -> SourceSpan {
    SourceSpan {
        start: SourcePosition { token_index, offset: offset as usize },
        end: SourcePosition { token_index, offset: (offset + 1) as usize },
    }
}

/// The char item for the char at `offset` of a segment's text.
pub open spec fn char_item(text: Seq<char>, token_index: usize, offset: int) -> StreamItem {
    StreamItem::Char { ch: text[offset], span: char_span(token_index, offset) }
}

/// The stream items of one token: a char item per char of static text, or
/// one interpolation item.
pub open spec fn token_items(token: TemplateToken) -> Seq<StreamItem> {
    match token {
        TemplateToken::StaticText(t) => Seq::new(
            t.text@.len(),
            |k: int| char_item(t.text@, t.token_index, k),
        ),
        TemplateToken::Interpolation(t) => seq![
            StreamItem::Interpolation {
                interpolation: t.interpolation,
                interpolation_index: t.interpolation_index,
                span: t.span,
            },
        ],
    }
}

/// The stream items of a token list, in order.
pub open spec fn tokens_items(tokens: Seq<TemplateToken>) -> Seq<StreamItem>
    decreases tokens.len(),
{
    if tokens.len() == 0 {
        seq![]
    } else {
        tokens_items(tokens.drop_last()) + token_items(tokens.last())
    }
}

/// The char stream of a template: the items of its tokens, then an end item
/// whose span is that of the last item before it (or the point `(0, 0)`).
pub open spec fn stream_of(segments: Seq<TemplateSegment>) -> Seq<StreamItem> {
    let body = tokens_items(tokens_of(segments));
    body.push(
        StreamItem::Eof {
            span: if body.len() == 0 {
                point_span(0, 0)
            } else {
                item_span(body.last())
            },
        },
    )
}

/// The char stream of a template made of one static text.
pub open spec fn text_stream(t: Seq<char>) -> Seq<StreamItem> {
    Seq::new(t.len(), |k: int| char_item(t, 0, k)).push(
        StreamItem::Eof {
            span: if t.len() == 0 {
                point_span(0, 0)
            } else {
                char_span(0, t.len() - 1)
            },
        },
    )
}

/// The stream of a one-text template is `text_stream` of the text.
pub proof fn lemma_text_stream(text: String)
    ensures
        stream_of(seq![TemplateSegment::StaticText(text)]) == text_stream(text@),
{
    let segments = seq![TemplateSegment::StaticText(text)];
    let tokens = tokens_of(segments);
    assert(tokens.drop_last() =~= Seq::<TemplateToken>::empty());
    assert(tokens_items(tokens.drop_last()) =~= Seq::<StreamItem>::empty());
    let body = tokens_items(tokens);
    assert(body =~= Seq::new(text@.len(), |k: int| char_item(text@, 0, k)));
    assert(stream_of(segments) =~= text_stream(text@));
}

/// The segments built from the first `n` texts and interpolations: each
/// non-empty text, then its interpolation.
pub open spec fn parts_body(
    strings: Seq<String>,
    interpolations: Seq<TemplateInterpolation>,
    n: nat,
) -> Seq<TemplateSegment>
    decreases n,
{
    if n == 0 {
        seq![]
    } else {
        let prev = parts_body(strings, interpolations, (n - 1) as nat);
        let text = strings[n - 1];
        let with_text = if text@.len() == 0 {
            prev
        } else {
            prev.push(TemplateSegment::StaticText(text))
        };
        with_text.push(TemplateSegment::Interpolation(interpolations[n - 1]))
    }
}

/// The segments of a template given as its texts and interpolations: the
/// interleaving without empty texts, closed by the last text when that is not
/// empty or when nothing came before it.
pub open spec fn parts_segments(
    strings: Seq<String>,
    interpolations: Seq<TemplateInterpolation>,
) -> Seq<TemplateSegment> {
    let body = parts_body(strings, interpolations, interpolations.len());
    let tail = strings.last();
    if tail@.len() != 0 || body.len() == 0 {
        body.push(TemplateSegment::StaticText(tail))
    } else {
        body
    }
}

/// The interpolations among segments, in order.
pub open spec fn interpolations_of(segments: Seq<TemplateSegment>) -> Seq<TemplateInterpolation>
    decreases segments.len(),
{
    if segments.len() == 0 {
        seq![]
    } else {
        let prev = interpolations_of(segments.drop_last());
        match segments.last() {
            TemplateSegment::Interpolation(i) => prev.push(i),
            TemplateSegment::StaticText(_) => prev,
        }
    }
}

/// The static text of segments, all texts joined in order.
pub open spec fn text_of(segments: Seq<TemplateSegment>) -> Seq<char>
    decreases segments.len(),
{
    if segments.len() == 0 {
        seq![]
    } else {
        let prev = text_of(segments.drop_last());
        match segments.last() {
            TemplateSegment::StaticText(t) => prev + t@,
            TemplateSegment::Interpolation(_) => prev,
        }
    }
}

/// Strings joined in order.
pub open spec fn joined(strings: Seq<String>) -> Seq<char>
    decreases strings.len(),
{
    if strings.len() == 0 {
        seq![]
    } else {
        joined(strings.drop_last()) + strings.last()@
    }
}

proof fn lemma_parts_body(
    strings: Seq<String>,
    interpolations: Seq<TemplateInterpolation>,
    n: nat,
)
    requires
        n <= interpolations.len(),
        strings.len() == interpolations.len() + 1,
    ensures
        interpolations_of(parts_body(strings, interpolations, n)) == interpolations.take(n as int),
        text_of(parts_body(strings, interpolations, n)) == joined(strings.take(n as int)),
    decreases n,
{
    if n == 0 {
        assert(interpolations.take(0) =~= Seq::<TemplateInterpolation>::empty());
        assert(strings.take(0) =~= Seq::<String>::empty());
    } else {
        lemma_parts_body(strings, interpolations, (n - 1) as nat);
        let prev = parts_body(strings, interpolations, (n - 1) as nat);
        let text = strings[n - 1];
        let with_text = if text@.len() == 0 {
            prev
        } else {
            prev.push(TemplateSegment::StaticText(text))
        };
        let whole = with_text.push(TemplateSegment::Interpolation(interpolations[n - 1]));
        assert(whole.drop_last() == with_text);
        if text@.len() != 0 {
            assert(with_text.drop_last() == prev);
        } else {
            assert(text@ =~= Seq::<char>::empty());
        }
        assert(interpolations.take(n as int) =~= interpolations.take(n - 1).push(
            interpolations[n - 1],
        ));
        assert(interpolations_of(with_text) == interpolations.take(n - 1));
        assert(interpolations_of(whole) == interpolations_of(with_text).push(interpolations[n - 1]));
        assert(whole == parts_body(strings, interpolations, n));
        assert(strings.take(n as int).drop_last() =~= strings.take(n - 1));
        assert(text_of(with_text) =~= joined(strings.take(n as int)));
    }
}

/// Building a template from its texts and interpolations keeps both: its
/// interpolation segments are the given interpolations in order, and its
/// static text is the given texts joined in order.
pub proof fn law_from_parts_keeps_texts_and_interpolations(
    strings: Seq<String>,
    interpolations: Seq<TemplateInterpolation>,
)
    requires
        strings.len() == interpolations.len() + 1,
    ensures
        interpolations_of(parts_segments(strings, interpolations)) == interpolations,
        text_of(parts_segments(strings, interpolations)) == joined(strings),
{
    let n = interpolations.len();
    lemma_parts_body(strings, interpolations, n);
    let body = parts_body(strings, interpolations, n);
    let tail = strings.last();
    assert(interpolations.take(n as int) =~= interpolations);
    assert(strings.take(n as int) =~= strings.drop_last());
    if tail@.len() != 0 || body.len() == 0 {
        let whole = body.push(TemplateSegment::StaticText(tail));
        assert(whole.drop_last() == body);
    } else {
        assert(tail@ =~= Seq::<char>::empty());
        assert(joined(strings) =~= joined(strings.drop_last()));
    }
}

/// The segments a text contributes: none when it is empty, else the text.
pub open spec fn text_segment(t: String) -> Seq<TemplateSegment> {
    if t@.len() == 0 {
        seq![]
    } else {
        seq![TemplateSegment::StaticText(t)]
    }
}

/// Texts and interpolations interleaved from the front: the first text (when
/// not empty), the first interpolation, then the rest the same way, and the
/// last text (when not empty) at the very end.
pub open spec fn interleaved(
    strings: Seq<String>,
    interpolations: Seq<TemplateInterpolation>,
) -> Seq<TemplateSegment>
    decreases interpolations.len(),
{
    if strings.len() == 0 {
        seq![]
    } else if interpolations.len() == 0 {
        text_segment(strings[0])
    } else {
        text_segment(strings[0]) + seq![TemplateSegment::Interpolation(interpolations[0])]
            + interleaved(strings.drop_first(), interpolations.drop_first())
    }
}

proof fn lemma_parts_body_step(
    strings: Seq<String>,
    interpolations: Seq<TemplateInterpolation>,
    n: nat,
)
    requires
        1 <= n <= interpolations.len(),
        strings.len() == interpolations.len() + 1,
    ensures
        parts_body(strings, interpolations, n) == parts_body(strings, interpolations, (n - 1) as nat)
            + text_segment(strings[n - 1]) + seq![TemplateSegment::Interpolation(interpolations[n - 1])],
{
    let prev = parts_body(strings, interpolations, (n - 1) as nat);
    let text = strings[n - 1];
    if text@.len() == 0 {
        assert(prev + text_segment(text) =~= prev);
    } else {
        assert(prev + text_segment(text) =~= prev.push(TemplateSegment::StaticText(text)));
    }
    assert(parts_body(strings, interpolations, n) =~= prev + text_segment(text) + seq![
        TemplateSegment::Interpolation(interpolations[n - 1]),
    ]);
}

proof fn lemma_parts_body_front(
    strings: Seq<String>,
    interpolations: Seq<TemplateInterpolation>,
    n: nat,
)
    requires
        1 <= n <= interpolations.len(),
        strings.len() == interpolations.len() + 1,
    ensures
        parts_body(strings, interpolations, n) == text_segment(strings[0]) + seq![
            TemplateSegment::Interpolation(interpolations[0]),
        ] + parts_body(strings.drop_first(), interpolations.drop_first(), (n - 1) as nat),
    decreases n,
{
    let s1 = strings.drop_first();
    let i1 = interpolations.drop_first();
    let head = text_segment(strings[0]) + seq![TemplateSegment::Interpolation(interpolations[0])];
    lemma_parts_body_step(strings, interpolations, n);
    if n == 1 {
        assert(parts_body(strings, interpolations, 0) =~= Seq::<TemplateSegment>::empty());
        assert(parts_body(s1, i1, 0) =~= Seq::<TemplateSegment>::empty());
        assert(parts_body(strings, interpolations, 1) =~= head + parts_body(s1, i1, 0));
    } else {
        lemma_parts_body_front(strings, interpolations, (n - 1) as nat);
        lemma_parts_body_step(s1, i1, (n - 1) as nat);
        assert(s1[n - 2] == strings[n - 1]);
        assert(i1[n - 2] == interpolations[n - 1]);
        let mid = parts_body(s1, i1, (n - 2) as nat);
        let last = text_segment(strings[n - 1]) + seq![
            TemplateSegment::Interpolation(interpolations[n - 1]),
        ];
        assert(parts_body(strings, interpolations, n) =~= head + mid + text_segment(strings[n - 1])
            + seq![TemplateSegment::Interpolation(interpolations[n - 1])]);
        assert(parts_body(s1, i1, (n - 1) as nat) =~= mid + text_segment(strings[n - 1]) + seq![
            TemplateSegment::Interpolation(interpolations[n - 1]),
        ]);
        assert(parts_body(strings, interpolations, n) =~= head + parts_body(s1, i1, (n - 1) as nat));
    }
}

proof fn lemma_interleaved_body(strings: Seq<String>, interpolations: Seq<TemplateInterpolation>)
    requires
        strings.len() == interpolations.len() + 1,
    ensures
        interleaved(strings, interpolations) == parts_body(
            strings,
            interpolations,
            interpolations.len(),
        ) + text_segment(strings.last()),
    decreases interpolations.len(),
{
    let m = interpolations.len();
    if m == 0 {
        assert(parts_body(strings, interpolations, 0) =~= Seq::<TemplateSegment>::empty());
        assert(strings.last() == strings[0]);
        assert(interleaved(strings, interpolations) =~= Seq::<TemplateSegment>::empty()
            + text_segment(strings.last()));
    } else {
        let s1 = strings.drop_first();
        let i1 = interpolations.drop_first();
        lemma_interleaved_body(s1, i1);
        lemma_parts_body_front(strings, interpolations, m);
        assert(s1.last() == strings.last());
        let head = text_segment(strings[0]) + seq![
            TemplateSegment::Interpolation(interpolations[0]),
        ];
        assert(interleaved(strings, interpolations) == head + interleaved(s1, i1));
        assert(interleaved(strings, interpolations) =~= head + parts_body(s1, i1, (m - 1) as nat)
            + text_segment(strings.last()));
    }
}

/// Building a template from parts interleaves them from the front: the first
/// text (when not empty), then the first interpolation, and so on, each
/// interpolation right after its text, and the last text (when not empty) as
/// the very last segment. A template with no interpolations and an empty
/// text is that one empty text.
pub proof fn law_from_parts_interleaves(
    strings: Seq<String>,
    interpolations: Seq<TemplateInterpolation>,
)
    requires
        strings.len() == interpolations.len() + 1,
    ensures
        parts_segments(strings, interpolations) == (if interleaved(strings, interpolations).len()
            == 0 {
            seq![TemplateSegment::StaticText(strings.last())]
        } else {
            interleaved(strings, interpolations)
        }),
        strings.last()@.len() != 0 ==> parts_segments(strings, interpolations).last()
            == TemplateSegment::StaticText(strings.last()),
{
    lemma_interleaved_body(strings, interpolations);
    let body = parts_body(strings, interpolations, interpolations.len());
    let tail = strings.last();
    if tail@.len() != 0 {
        assert(body + text_segment(tail) =~= body.push(TemplateSegment::StaticText(tail)));
    } else {
        assert(body + text_segment(tail) =~= body);
    }
}

/// The chars of the char items among stream items, in order.
pub open spec fn items_text(items: Seq<StreamItem>) -> Seq<char>
    decreases items.len(),
{
    if items.len() == 0 {
        seq![]
    } else {
        items_text(items.drop_last()) + match items.last() {
            StreamItem::Char { ch, .. } => seq![ch],
            _ => seq![],
        }
    }
}

/// The interpolations of the interpolation items among stream items, in order.
pub open spec fn items_interpolations(items: Seq<StreamItem>) -> Seq<TemplateInterpolation>
    decreases items.len(),
{
    if items.len() == 0 {
        seq![]
    } else {
        items_interpolations(items.drop_last()) + match items.last() {
            StreamItem::Interpolation { interpolation, .. } => seq![interpolation],
            _ => seq![],
        }
    }
}

proof fn lemma_items_concat(a: Seq<StreamItem>, b: Seq<StreamItem>)
    ensures
        items_text(a + b) == items_text(a) + items_text(b),
        items_interpolations(a + b) == items_interpolations(a) + items_interpolations(b),
    decreases b.len(),
{
    if b.len() == 0 {
        assert(a + b =~= a);
        assert(items_text(a) + items_text(b) =~= items_text(a));
        assert(items_interpolations(a) + items_interpolations(b) =~= items_interpolations(a));
    } else {
        lemma_items_concat(a, b.drop_last());
        assert((a + b).drop_last() =~= a + b.drop_last());
        assert((a + b).last() == b.last());
        assert(items_text(a + b) =~= items_text(a) + items_text(b));
        assert(items_interpolations(a + b) =~= items_interpolations(a) + items_interpolations(b));
    }
}

proof fn lemma_text_items(text: Seq<char>, token_index: usize, n: int)
    requires
        0 <= n <= text.len(),
    ensures
        items_text(Seq::new(n as nat, |k: int| char_item(text, token_index, k))) == text.take(n),
        items_interpolations(Seq::new(n as nat, |k: int| char_item(text, token_index, k)))
            == Seq::<TemplateInterpolation>::empty(),
    decreases n,
{
    let items = Seq::new(n as nat, |k: int| char_item(text, token_index, k));
    if n == 0 {
        assert(text.take(0) =~= Seq::<char>::empty());
    } else {
        lemma_text_items(text, token_index, n - 1);
        assert(items.drop_last() =~= Seq::new((n - 1) as nat, |k: int| char_item(text, token_index, k)));
        assert(text.take(n) =~= text.take(n - 1).push(text[n - 1]));
        assert(items.last() == char_item(text, token_index, n - 1));
    }
}

proof fn lemma_token_items_text(segment: TemplateSegment, i: usize)
    ensures
        items_text(token_items(token_of(segment, i))) == (match segment {
            TemplateSegment::StaticText(t) => t@,
            TemplateSegment::Interpolation(_) => Seq::<char>::empty(),
        }),
        items_interpolations(token_items(token_of(segment, i))) == (match segment {
            TemplateSegment::StaticText(_) => Seq::<TemplateInterpolation>::empty(),
            TemplateSegment::Interpolation(x) => seq![x],
        }),
{
    match segment {
        TemplateSegment::StaticText(t) => {
            lemma_text_items(t@, i, t@.len() as int);
            assert(t@.take(t@.len() as int) =~= t@);
            let items = Seq::new(t@.len() as int as nat, |k: int| char_item(t@, i, k));
            assert(items_text(items) == t@);
            assert(items_interpolations(items) == Seq::<TemplateInterpolation>::empty());
            assert(token_of(segment, i) matches TemplateToken::StaticText(tok) && tok.text == t
                && tok.token_index == i);
            assert(token_items(token_of(segment, i)) =~= items);
        },
        TemplateSegment::Interpolation(x) => {
            let items = token_items(token_of(segment, i));
            assert(items.len() == 1);
            assert(items.drop_last() =~= Seq::<StreamItem>::empty());
            assert(items.last() is Interpolation);
            assert(items.last()->Interpolation_interpolation == x);
            assert(items_text(items.drop_last()) =~= Seq::<char>::empty());
            assert(items_interpolations(items.drop_last()) =~= Seq::<TemplateInterpolation>::empty());
            assert(items_text(items) =~= Seq::<char>::empty());
            assert(items_interpolations(items) =~= seq![x]);
        },
    }
}

proof fn lemma_segments_items(segments: Seq<TemplateSegment>)
    ensures
        items_text(tokens_items(tokens_of(segments))) == text_of(segments),
        items_interpolations(tokens_items(tokens_of(segments))) == interpolations_of(segments),
    decreases segments.len(),
{
    if segments.len() > 0 {
        let n = segments.len() - 1;
        let pre = segments.drop_last();
        lemma_segments_items(pre);
        assert(tokens_of(segments).drop_last() =~= tokens_of(pre));
        let last = segments.last();
        assert(tokens_of(segments).last() == token_of(last, n as usize));
        lemma_items_concat(tokens_items(tokens_of(pre)), token_items(token_of(last, n as usize)));
        lemma_token_items_text(last, n as usize);
        match last {
            TemplateSegment::StaticText(t) => {
                assert(interpolations_of(pre) + Seq::<TemplateInterpolation>::empty()
                    =~= interpolations_of(pre));
            },
            TemplateSegment::Interpolation(x) => {
                assert(text_of(pre) + Seq::<char>::empty() =~= text_of(pre));
                assert(interpolations_of(pre) + seq![x] =~= interpolations_of(pre).push(x));
            },
        }
    }
}

/// Flattening a template keeps it: the char stream ends with one end item,
/// its chars before that spell the template's static text in order, and its
/// interpolation items hold the template's interpolations in order.
pub proof fn law_stream_keeps_template(segments: Seq<TemplateSegment>)
    ensures
        stream_of(segments).len() >= 1,
        stream_of(segments).last() is Eof,
        items_text(stream_of(segments).drop_last()) == text_of(segments),
        items_interpolations(stream_of(segments).drop_last()) == interpolations_of(segments),
{
    lemma_segments_items(segments);
    assert(stream_of(segments).drop_last() =~= tokens_items(tokens_of(segments)));
}

/// The first interpolation segment with the given index, if any.
pub open spec fn find_interpolation(segments: Seq<TemplateSegment>, index: usize) -> Option<
    TemplateInterpolation,
>
    decreases segments.len(),
{
    if segments.len() == 0 {
        None
    } else {
        match segments[0] {
            TemplateSegment::Interpolation(i) if i.interpolation_index == index => Some(i),
            _ => find_interpolation(segments.drop_first(), index),
        }
    }
}

/// A well-formed char stream: it ends with its only end item.
pub open spec fn stream_wf(items: Seq<StreamItem>) -> bool {
    &&& items.len() > 0
    &&& items.last() is Eof
    &&& forall|k: int| 0 <= k < items.len() - 1 ==> !(#[trigger] items[k] is Eof)
}

proof fn lemma_tokens_items_no_eof(tokens: Seq<TemplateToken>)
    ensures
        forall|k: int|
            0 <= k < tokens_items(tokens).len() ==> !(#[trigger] tokens_items(tokens)[k] is Eof),
    decreases tokens.len(),
{
    if tokens.len() > 0 {
        lemma_tokens_items_no_eof(tokens.drop_last());
        let prev = tokens_items(tokens.drop_last());
        let last = token_items(tokens.last());
        assert forall|k: int| 0 <= k < tokens_items(tokens).len() implies !(
        #[trigger] tokens_items(tokens)[k] is Eof) by {
            if k < prev.len() {
                assert(tokens_items(tokens)[k] == prev[k]);
            } else {
                assert(tokens_items(tokens)[k] == last[k - prev.len()]);
            }
        }
    }
}

/// Every template's char stream is well formed.
pub proof fn lemma_stream_wf(segments: Seq<TemplateSegment>)
    ensures
        stream_wf(stream_of(segments)),
{
    lemma_tokens_items_no_eof(tokens_of(segments));
}

impl TemplateInput {
    /// A template with exactly these segments.
    pub fn from_segments(segments: Vec<TemplateSegment>) -> (r: Self)
        ensures
            r.segments@ == segments@,
    {
        Self { segments }
    }

    /// A template from its texts and interpolations, which alternate starting
    /// and ending with a text.
    pub fn from_parts(strings: Vec<String>, interpolations: Vec<TemplateInterpolation>) -> (r:
        Self)
        requires
            strings.len() == interpolations.len() + 1,
        ensures
            r.segments@ == parts_segments(strings@, interpolations@),
    {
        let mut segments: Vec<TemplateSegment> = Vec::new();
        let mut n: usize = 0;
        while n < interpolations.len()
            invariant
                n <= interpolations.len(),
                strings.len() == interpolations.len() + 1,
                segments@ == parts_body(strings@, interpolations@, n as nat),
            decreases interpolations.len() - n,
        {
            let text = strings[n].clone();
            if !text.as_str().is_empty() {
                segments.push(TemplateSegment::StaticText(text));
            }
            segments.push(TemplateSegment::Interpolation(interpolations[n].clone()));
            n += 1;
        }
        let tail = strings[strings.len() - 1].clone();
        if !tail.as_str().is_empty() || segments.len() == 0 {
            segments.push(TemplateSegment::StaticText(tail));
        }
        Self { segments }
    }

    /// One token per segment, with its segment index and span.
    pub fn tokenize(&self) -> (r: Vec<TemplateToken>)
        ensures
            r@ == tokens_of(self.segments@),
    {
        let mut tokens: Vec<TemplateToken> = Vec::new();
        let mut token_index: usize = 0;
        while token_index < self.segments.len()
            invariant
                token_index <= self.segments.len(),
                tokens@ == tokens_of(self.segments@).take(token_index as int),
            decreases self.segments.len() - token_index,
        {
            match &self.segments[token_index] {
                TemplateSegment::StaticText(text) => {
                    let chars = chars_of(text.as_str());
                    let end = chars.len();
                    tokens.push(
                        TemplateToken::StaticText(
                            StaticTextToken {
                                text: text.clone(),
                                token_index,
                                span: SourceSpan::between(
                                    SourcePosition { token_index, offset: 0 },
                                    SourcePosition { token_index, offset: end },
                                ),
                            },
                        ),
                    );
                },
                TemplateSegment::Interpolation(interpolation) => {
                    tokens.push(
                        TemplateToken::Interpolation(
                            InterpolationToken {
                                interpolation: interpolation.clone(),
                                interpolation_index: interpolation.interpolation_index,
                                token_index,
                                span: SourceSpan::point(token_index, 0),
                            },
                        ),
                    );
                },
            }
            token_index += 1;
            assert(tokens@ =~= tokens_of(self.segments@).take(token_index as int));
        }
        assert(tokens@ =~= tokens_of(self.segments@));
        tokens
    }

    /// The char stream: a char item per char of static text, an item per
    /// interpolation, and a closing end item.
    pub fn flatten(&self) -> (r: Vec<StreamItem>)
        ensures
            r@ == stream_of(self.segments@),
    {
        let tokens = self.tokenize();
        let mut items: Vec<StreamItem> = Vec::new();
        let mut j: usize = 0;
        while j < tokens.len()
            invariant
                j <= tokens.len(),
                tokens@ == tokens_of(self.segments@),
                items@ == tokens_items(tokens@.take(j as int)),
            decreases tokens.len() - j,
        {
            let ghost before = items@;
            assert(tokens@.take((j + 1) as int).drop_last() == tokens@.take(j as int));
            match &tokens[j] {
                TemplateToken::StaticText(token) => {
                    let chars = chars_of(token.text.as_str());
                    let mut offset: usize = 0;
                    while offset < chars.len()
                        invariant
                            offset <= chars.len(),
                            j < tokens.len(),
                            chars@ == token.text@,
                            items@ == before + token_items(tokens@[j as int]).take(offset as int),
                            tokens@[j as int] == TemplateToken::StaticText(*token),
                        decreases chars.len() - offset,
                    {
                        items.push(
                            StreamItem::Char {
                                ch: chars[offset],
                                span: SourceSpan::between(
                                    SourcePosition { token_index: token.token_index, offset },
                                    SourcePosition {
                                        token_index: token.token_index,
                                        offset: offset + 1,
                                    },
                                ),
                            },
                        );
                        let ghost ti = token_items(tokens@[j as int]);
                        assert(ti.len() == chars@.len());
                        assert(ti[offset as int] == items@.last());
                        offset += 1;
                        assert(ti.take(offset as int) =~= ti.take((offset - 1) as int).push(
                            ti[offset - 1],
                        ));
                        assert(items@ =~= before + token_items(tokens@[j as int]).take(
                            offset as int,
                        ));
                    }
                    assert(token_items(tokens@[j as int]).len() == chars@.len());
                    assert(token_items(tokens@[j as int]).take(offset as int) =~= token_items(
                        tokens@[j as int],
                    ));
                },
                TemplateToken::Interpolation(token) => {
                    items.push(
                        StreamItem::Interpolation {
                            interpolation: token.interpolation.clone(),
                            interpolation_index: token.interpolation_index,
                            span: token.span,
                        },
                    );
                    assert(items@ =~= before + token_items(tokens@[j as int]));
                },
            }
            j += 1;
        }
        assert(tokens@.take(tokens@.len() as int) == tokens@);
        let eof_span = if items.len() == 0 {
            SourceSpan::point(0, 0)
        } else {
            *items[items.len() - 1].span()
        };
        items.push(StreamItem::Eof { span: eof_span });
        items
    }

    /// The first interpolation with the given index.
    pub fn interpolation(&self, index: usize) -> (r: Option<&TemplateInterpolation>)
        ensures
            r == (match find_interpolation(self.segments@, index) {
                Some(i) => Some(&i),
                None => None,
            }),
    {
        let mut k: usize = 0;
        assert(self.segments@.skip(0) == self.segments@);
        while k < self.segments.len()
            invariant
                k <= self.segments.len(),
                find_interpolation(self.segments@, index) == find_interpolation(
                    self.segments@.skip(k as int),
                    index,
                ),
            decreases self.segments.len() - k,
        {
            assert(self.segments@.skip(k as int).drop_first() == self.segments@.skip(k + 1));
            match &self.segments[k] {
                TemplateSegment::Interpolation(i) => {
                    if i.interpolation_index == index {
                        return Some(i);
                    }
                },
                _ => {},
            }
            k += 1;
        }
        None
    }

    /// The raw `{...}` text of the first interpolation with the given index,
    /// when that interpolation has one.
    pub fn interpolation_raw_source(&self, index: usize) -> (r: Option<&str>)
        ensures
            match find_interpolation(self.segments@, index) {
                Some(i) => match i.raw_source {
                    Some(raw) => r matches Some(s) && s@ == raw@,
                    None => r is None,
                },
                None => r is None,
            },
    {
        match self.interpolation(index) {
            Some(i) => match &i.raw_source {
                Some(raw) => Some(raw.as_str()),
                None => None,
            },
            None => None,
        }
    }
}

} // verus!
