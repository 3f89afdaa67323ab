//! Sample guest functions: the logic that runs inside the sandboxed module
//! between decode and encode. Text values are carried as their UTF-8 bytes.

use vstd::prelude::*;

use crate::utf8::utf8_ok;
use crate::value::{
    Scalar, ScalarType, TypeDesc, Val, Value, bytes_lt, lemma_bytes_trichotomy,
    lemma_vmodels_index, lemma_vmodels_push, vmodel, vmodels,
};
use crate::wire::{wf, wire_bytes};
use crate::bridge::Memory;
use crate::codec::Fault;

verus! {

/// The separator the join function places between texts.
pub open spec fn comma_sep() -> Seq<u8> {
    seq![0x2Cu8, 0x20u8]
}

/// The texts joined with `", "` between them.
pub open spec fn join_sep(s: Seq<Seq<u8>>) -> Seq<u8>
    decreases s.len(),
{
    if s.len() == 0 {
        Seq::empty()
    } else if s.len() == 1 {
        s[0]
    } else {
        s[0] + comma_sep() + join_sep(s.drop_first())
    }
}

/// Appending one more text appends one separator and the text.
pub proof fn lemma_join_push(s: Seq<Seq<u8>>, x: Seq<u8>)
    requires
        s.len() > 0,
    ensures
        join_sep(s.push(x)) == join_sep(s) + comma_sep() + x,
    decreases s.len(),
{
    if s.len() == 1 {
        assert(s.push(x).drop_first() =~= seq![x]);
        assert(s.push(x)[0] == s[0]);
        assert(seq![x][0] == x);
        assert(join_sep(seq![x]) == x);
        assert(join_sep(s.push(x)) =~= join_sep(s) + comma_sep() + x);
    } else {
        assert(s.push(x).drop_first() =~= s.drop_first().push(x));
        lemma_join_push(s.drop_first(), x);
        assert(join_sep(s.push(x)) =~= join_sep(s) + comma_sep() + x);
    }
}

/// Copies a byte vector.
pub fn copy_bytes(b: &Vec<u8>) -> (r: Vec<u8>)
    ensures
        r@ == b@,
{
    let mut out: Vec<u8> = Vec::new();
    let mut i: usize = 0;
    while i < b.len()
        invariant
            i <= b@.len(),
            out@ == b@.take(i as int),
        decreases b@.len() - i,
    {
        out.push(b[i]);
        proof {
            assert(b@.take(i as int + 1) =~= b@.take(i as int).push(b@[i as int]));
        }
        i = i + 1;
    }
    proof {
        assert(b@.take(b@.len() as int) =~= b@);
    }
    out
}

/// Appends the bytes of `b` to `out`.
pub fn append_bytes(out: &mut Vec<u8>, b: &Vec<u8>)
    ensures
        final(out)@ == old(out)@ + b@,
{
    let mut i: usize = 0;
    while i < b.len()
        invariant
            i <= b@.len(),
            out@ == old(out)@ + b@.take(i as int),
        decreases b@.len() - i,
    {
        out.push(b[i]);
        proof {
            assert(b@.take(i as int + 1) =~= b@.take(i as int).push(b@[i as int]));
            assert(out@ =~= old(out)@ + b@.take(i as int + 1));
        }
        i = i + 1;
    }
    proof {
        assert(b@.take(b@.len() as int) =~= b@);
    }
}

/// The views of a vector of byte vectors.
pub open spec fn text_views(v: Seq<Vec<u8>>) -> Seq<Seq<u8>> {
    v.map_values(|x: Vec<u8>| x@)
}

/// Joins the given texts with `", "`, or passes an absent input through.
pub fn commas(strings: Option<Vec<Vec<u8>>>) -> (r: Option<Vec<u8>>)
    ensures
        match strings {
            Option::None => r is None,
            Option::Some(v) => r matches Option::Some(j) && j@ == join_sep(text_views(v@)),
        },
{
    match strings {
        Option::None => Option::None,
        Option::Some(items) => {
            let ghost vs = text_views(items@);
            let mut out: Vec<u8> = Vec::new();
            let mut i: usize = 0;
            proof {
                assert(vs.take(0) =~= Seq::<Seq<u8>>::empty());
            }
            while i < items.len()
                invariant
                    i <= items@.len(),
                    vs == text_views(items@),
                    vs.len() == items@.len(),
                    forall|j: int| 0 <= j < items@.len() ==> vs[j] == (#[trigger] items@[j])@,
                    out@ == join_sep(vs.take(i as int)),
                decreases items@.len() - i,
            {
                if i > 0 {
                    out.push(0x2C);
                    out.push(0x20);
                }
                append_bytes(&mut out, &items[i]);
                proof {
                    assert(vs.take(i as int + 1) =~= vs.take(i as int).push(vs[i as int]));
                    if i > 0 {
                        lemma_join_push(vs.take(i as int), vs[i as int]);
                        assert(out@ =~= join_sep(vs.take(i as int)) + comma_sep() + vs[i as int]);
                    } else {
                        assert(vs.take(1)[0] == vs[0]);
                        assert(out@ =~= join_sep(vs.take(1)));
                    }
                }
                i = i + 1;
            }
            proof {
                assert(vs.take(items@.len() as int) =~= vs);
            }
            Option::Some(out)
        },
    }
}

/// A set of texts in canonical (byte-lexicographic) order with no duplicates.
pub struct TextSet {
    pub items: Vec<Vec<u8>>,
}

impl TextSet {
    /// The texts, in order.
    pub open spec fn texts(&self) -> Seq<Seq<u8>> {
        text_views(self.items@)
    }

    /// Strictly increasing byte-lexicographic order; every text valid UTF-8.
    pub open spec fn inv(&self) -> bool {
        &&& forall|i: int|
            0 <= i < self.texts().len() - 1 ==> bytes_lt(
                #[trigger] self.texts()[i],
                self.texts()[i + 1],
            )
        &&& forall|i: int| 0 <= i < self.texts().len() ==> utf8_ok(#[trigger] self.texts()[i])
    }
}

/// The text standing in for a wholly absent set argument.
pub open spec fn null_text() -> Seq<u8> {
    seq![0x6Eu8, 0x75u8, 0x6Cu8, 0x6Cu8]
}

/// The text standing in for an absent count argument.
pub open spec fn null2_text() -> Seq<u8> {
    seq![0x6Eu8, 0x75u8, 0x6Cu8, 0x6Cu8, 0x32u8]
}

/// What the top-of-set function returns: a marker text for an absent set or
/// an absent count, else the first `n` texts in canonical order.
pub open spec fn spec_top3(strings: Option<TextSet>, topn: Option<u16>) -> Seq<Seq<u8>> {
    match strings {
        Option::None => seq![null_text()],
        Option::Some(s) => match topn {
            Option::None => seq![null2_text()],
            Option::Some(n) => if n as int <= s.texts().len() {
                s.texts().take(n as int)
            } else {
                s.texts()
            },
        },
    }
}

/// Returns the `topn` first texts of the set in canonical order, or a marker
/// text when either argument is absent.
pub fn _scylla_internal_top3(strings: Option<TextSet>, topn: Option<u16>) -> (r: Vec<Vec<u8>>)
    ensures
        text_views(r@) == spec_top3(strings, topn),
{
    match strings {
        Option::None => {
            let mut out: Vec<Vec<u8>> = Vec::new();
            out.push(vec![0x6E, 0x75, 0x6C, 0x6C]);
            proof {
                assert(text_views(out@) =~= seq![null_text()]);
            }
            out
        },
        Option::Some(s) => match topn {
            Option::None => {
                let mut out: Vec<Vec<u8>> = Vec::new();
                out.push(vec![0x6E, 0x75, 0x6C, 0x6C, 0x32]);
                proof {
                    assert(text_views(out@) =~= seq![null2_text()]);
                }
                out
            },
            Option::Some(n) => {
                let take_n: usize = if (n as usize) <= s.items.len() {
                    n as usize
                } else {
                    s.items.len()
                };
                let mut out: Vec<Vec<u8>> = Vec::new();
                let mut i: usize = 0;
                proof {
                    assert(text_views(out@) =~= s.texts().take(0));
                }
                while i < take_n
                    invariant
                        i <= take_n,
                        take_n <= s.items@.len(),
                        text_views(out@) == s.texts().take(i as int),
                    decreases take_n - i,
                {
                    let t = copy_bytes(&s.items[i]);
                    out.push(t);
                    proof {
                        assert(s.texts().take(i as int + 1) =~= s.texts().take(i as int).push(
                            s.texts()[i as int],
                        ));
                        assert(text_views(out@) =~= s.texts().take(i as int + 1));
                    }
                    i = i + 1;
                }
                proof {
                    if n as int <= s.texts().len() {
                        assert(text_views(out@) == s.texts().take(n as int));
                    } else {
                        assert(s.texts().take(s.texts().len() as int) =~= s.texts());
                    }
                }
                out
            },
        },
    }
}

/// One accumulator entry: a rank, the ranked text, and the sequence number of
/// the insertion that produced it.
pub struct Entry {
    pub rank: u32,
    pub text: Vec<u8>,
    pub seqno: u32,
}

/// The natural order on entries: rank, then text, then sequence number.
pub open spec fn entry_lt(a: Entry, b: Entry) -> bool {
    ||| a.rank < b.rank
    ||| (a.rank == b.rank && bytes_lt(a.text@, b.text@))
    ||| (a.rank == b.rank && a.text@ == b.text@ && a.seqno < b.seqno)
}

/// Entries agree in every field; texts are compared by their bytes.
pub open spec fn entry_eq(a: Entry, b: Entry) -> bool {
    a.rank == b.rank && a.text@ == b.text@ && a.seqno == b.seqno
}

/// Entries in strictly increasing order.
pub open spec fn entries_sorted(s: Seq<Entry>) -> bool {
    forall|i: int| 0 <= i < s.len() - 1 ==> entry_lt(#[trigger] s[i], s[i + 1])
}

/// A bounded accumulator: a limit, the kept entries in canonical order, and a
/// counter of all insertions seen.
pub struct Accum {
    pub limit: u32,
    pub entries: Vec<Entry>,
    pub counter: u32,
}

impl Accum {
    /// Entries strictly ordered, each text valid UTF-8.
    pub open spec fn inv(&self) -> bool {
        &&& entries_sorted(self.entries@)
        &&& forall|i: int|
            0 <= i < self.entries@.len() ==> utf8_ok((#[trigger] self.entries@[i]).text@)
    }
}

/// Where an entry lands in an ordered entry sequence: before a greater entry,
/// swallowed by an equal one, after a smaller one.
pub open spec fn spec_insert(s: Seq<Entry>, e: Entry) -> Seq<Entry>
    decreases s.len(),
{
    if s.len() == 0 {
        seq![e]
    } else if entry_lt(e, s[0]) {
        seq![e] + s
    } else if entry_eq(e, s[0]) {
        s
    } else {
        seq![s[0]] + spec_insert(s.drop_first(), e)
    }
}

/// Exactly one of `entry_lt(a, b)`, `a == b`, `entry_lt(b, a)` holds.
pub proof fn lemma_entry_trichotomy(a: Entry, b: Entry)
    ensures
        entry_lt(a, b) ==> !entry_lt(b, a) && !entry_eq(a, b),
        !entry_lt(a, b) && !entry_lt(b, a) ==> entry_eq(a, b),
{
    lemma_bytes_trichotomy(a.text@, b.text@);
}

/// Inserting into an ordered sequence keeps it ordered, never shrinks it, and
/// begins with the inserted entry or the old head.
pub proof fn lemma_spec_insert_sorted(s: Seq<Entry>, e: Entry)
    requires
        entries_sorted(s),
    ensures
        entries_sorted(spec_insert(s, e)),
        s.len() <= spec_insert(s, e).len() <= s.len() + 1,
        spec_insert(s, e).len() > 0,
        spec_insert(s, e)[0] == e || (s.len() > 0 && spec_insert(s, e)[0] == s[0]),
        forall|i: int|
            0 <= i < spec_insert(s, e).len() ==> s.contains(#[trigger] spec_insert(s, e)[i])
                || spec_insert(s, e)[i] == e,
    decreases s.len(),
{
    if s.len() == 0 {
    } else if entry_lt(e, s[0]) {
        let r = seq![e] + s;
        assert forall|i: int| 0 <= i < r.len() - 1 implies entry_lt(#[trigger] r[i], r[i + 1]) by {
            if i > 0 {
                assert(r[i] == s[i - 1]);
                assert(r[i + 1] == s[i]);
            }
        }
        assert forall|i: int|
            0 <= i < r.len() implies s.contains(#[trigger] r[i]) || r[i] == e by {
            if i > 0 {
                assert(r[i] == s[i - 1]);
            }
        }
    } else if entry_eq(e, s[0]) {
        assert forall|i: int| 0 <= i < s.len() implies s.contains(#[trigger] s[i]) by {}
    } else {
        let tail = s.drop_first();
        assert(entries_sorted(tail)) by {
            assert forall|i: int|
                0 <= i < tail.len() - 1 implies entry_lt(#[trigger] tail[i], tail[i + 1]) by {
                assert(tail[i] == s[i + 1]);
                assert(tail[i + 1] == s[i + 2]);
            }
        }
        lemma_spec_insert_sorted(tail, e);
        lemma_entry_trichotomy(e, s[0]);
        let it = spec_insert(tail, e);
        let r = seq![s[0]] + it;
        assert(entry_lt(s[0], e));
        assert forall|i: int| 0 <= i < r.len() - 1 implies entry_lt(#[trigger] r[i], r[i + 1]) by {
            if i == 0 {
                assert(r[1] == it[0]);
                if it[0] == e {
                } else {
                    assert(it[0] == tail[0]);
                    assert(entry_lt(s[0], s[1]));
                }
            } else {
                assert(r[i] == it[i - 1]);
                assert(r[i + 1] == it[i]);
            }
        }
        assert forall|i: int|
            0 <= i < r.len() implies s.contains(#[trigger] r[i]) || r[i] == e by {
            if i == 0 {
                assert(s.contains(s[0]));
            } else {
                assert(r[i] == it[i - 1]);
                if it[i - 1] == e {
                } else {
                    let j = choose|j: int| 0 <= j < tail.len() && tail[j] == it[i - 1];
                    assert(s[j + 1] == tail[j]);
                    assert(s.contains(s[j + 1]));
                }
            }
        }
    }
}

/// Compares two byte vectors in byte-lexicographic order: negative for less,
/// zero for equal, positive for greater.
pub fn bytes_cmp(a: &Vec<u8>, b: &Vec<u8>) -> (r: i8)
    ensures
        (r == -1) == bytes_lt(a@, b@),
        (r == 0) == (a@ == b@),
        (r == 1) == bytes_lt(b@, a@),
        r == -1 || r == 0 || r == 1,
{
    proof {
        lemma_bytes_trichotomy(a@, b@);
        assert(a@.skip(0) =~= a@);
        assert(b@.skip(0) =~= b@);
    }
    let n = if a.len() <= b.len() {
        a.len()
    } else {
        b.len()
    };
    let mut i: usize = 0;
    while i < n
        invariant
            i <= n,
            n <= a@.len(),
            n <= b@.len(),
            n == if a@.len() <= b@.len() {
                a@.len()
            } else {
                b@.len()
            },
            forall|j: int| 0 <= j < i ==> a@[j] == b@[j],
            bytes_lt(a@, b@) == bytes_lt(a@.skip(i as int), b@.skip(i as int)),
            bytes_lt(b@, a@) == bytes_lt(b@.skip(i as int), a@.skip(i as int)),
            (a@ == b@) == (a@.skip(i as int) == b@.skip(i as int)),
        decreases n - i,
    {
        let ca = a[i];
        let cb = b[i];
        proof {
            let sa = a@.skip(i as int);
            let sb = b@.skip(i as int);
            assert(sa[0] == a@[i as int]);
            assert(sb[0] == b@[i as int]);
            if ca == cb {
                assert(sa.drop_first() =~= a@.skip(i as int + 1));
                assert(sb.drop_first() =~= b@.skip(i as int + 1));
                assert((sa == sb) == (sa.drop_first() == sb.drop_first())) by {
                    if sa.drop_first() == sb.drop_first() && sa.len() == sb.len() {
                        assert forall|j: int| 0 <= j < sa.len() implies sa[j] == sb[j] by {
                            if j > 0 {
                                assert(sa[j] == sa.drop_first()[j - 1]);
                                assert(sb[j] == sb.drop_first()[j - 1]);
                            }
                        }
                        assert(sa =~= sb);
                    }
                    if sa == sb {
                        assert(sa.drop_first() =~= sb.drop_first());
                    }
                }
            }
        }
        if ca < cb {
            return -1;
        }
        if cb < ca {
            return 1;
        }
        i = i + 1;
    }
    proof {
        let sa = a@.skip(i as int);
        let sb = b@.skip(i as int);
        if a@.len() == b@.len() {
            assert(sa =~= Seq::<u8>::empty());
            assert(sb =~= Seq::<u8>::empty());
            assert(sa =~= sb);
        } else if a@.len() < b@.len() {
            assert(sa.len() == 0 && sb.len() > 0);
            assert(bytes_lt(sa, sb));
        } else {
            assert(sb.len() == 0 && sa.len() > 0);
            assert(bytes_lt(sb, sa));
        }
    }
    if a.len() == b.len() {
        0
    } else if a.len() < b.len() {
        -1
    } else {
        1
    }
}

/// Compares two entries in the natural entry order.
fn entry_cmp(a: &Entry, b: &Entry) -> (r: i8)
    ensures
        (r == -1) == entry_lt(*a, *b),
        (r == 0) == entry_eq(*a, *b),
        (r == 1) == entry_lt(*b, *a),
{
    proof {
        lemma_entry_trichotomy(*a, *b);
    }
    if a.rank < b.rank {
        return -1;
    }
    if b.rank < a.rank {
        return 1;
    }
    let c = bytes_cmp(&a.text, &b.text);
    if c != 0 {
        return c;
    }
    if a.seqno < b.seqno {
        return -1;
    }
    if b.seqno < a.seqno {
        return 1;
    }
    0
}

/// Inserts an entry into an ordered entry vector, keeping order and dropping
/// a duplicate.
fn insert_entry(s: Vec<Entry>, e: Entry) -> (r: Vec<Entry>)
    ensures
        r@ == spec_insert(s@, e),
    decreases s@.len(),
{
    let mut s = s;
    if s.len() == 0 {
        proof {
            assert(s@ =~= Seq::<Entry>::empty());
        }
        let mut out: Vec<Entry> = Vec::new();
        out.push(e);
        proof {
            assert(out@ =~= seq![e]);
        }
        return out;
    }
    let ghost s0 = s@;
    let c = entry_cmp(&e, &s[0]);
    if c == -1 {
        s.insert(0, e);
        proof {
            assert(s@ =~= seq![e] + s0);
        }
        return s;
    }
    if c == 0 {
        return s;
    }
    let head = s.remove(0);
    proof {
        assert(s@ =~= s0.drop_first());
    }
    let rest = insert_entry(s, e);
    let mut rest = rest;
    rest.insert(0, head);
    proof {
        assert(rest@ =~= seq![s0[0]] + spec_insert(s0.drop_first(), e));
    }
    rest
}

/// Accumulates one ranked text: the rank is the text's byte length, the
/// sequence number is the counter before the call. After the insertion the
/// lowest-ranked entries are kept, at most `limit` of them, and the counter
/// advances by one.
pub fn topn_row(acc: Accum, text: Vec<u8>) -> (r: Accum)
    requires
        acc.inv(),
        acc.counter < 0xFFFF_FFFF,
        text@.len() <= 0xFFFF_FFFF,
        utf8_ok(text@),
    ensures
        r.inv(),
        r.limit == acc.limit,
        r.counter == acc.counter + 1,
        ({
            let e = Entry { rank: text@.len() as u32, text: text, seqno: acc.counter };
            let u = spec_insert(acc.entries@, e);
            r.entries@ == if u.len() <= acc.limit as int {
                u
            } else {
                u.take(acc.limit as int)
            }
        }),
{
    let limit = acc.limit;
    let counter = acc.counter;
    let ghost etext = text@;
    let rank = #[verifier::truncate] (text.len() as u32);
    let e = Entry { rank, text, seqno: counter };
    let ghost eg = e;
    proof {
        lemma_spec_insert_sorted(acc.entries@, e);
    }
    let mut entries = insert_entry(acc.entries, e);
    let ghost u = entries@;
    proof {
        assert(u.take(u.len() as int) =~= u);
    }
    while entries.len() > limit as usize
        invariant
            entries_sorted(u),
            entries@.len() <= u.len(),
            entries@ == u.take(entries@.len() as int),
            entries@.len() >= limit as int || entries@ == u,
        decreases entries@.len(),
    {
        let ghost k = entries@.len() as int;
        proof {
            assert(u.take(k).drop_last() =~= u.take(k - 1));
        }
        entries.pop();
    }
    proof {
        if u.len() > limit as int {
            assert(entries@ == u.take(limit as int));
        }
        assert(entries_sorted(entries@)) by {
            assert forall|i: int|
                0 <= i < entries@.len() - 1 implies entry_lt(
                #[trigger] entries@[i],
                entries@[i + 1],
            ) by {
                assert(entries@[i] == u[i]);
                assert(entries@[i + 1] == u[i + 1]);
            }
        }
        assert forall|i: int|
            0 <= i < entries@.len() implies utf8_ok((#[trigger] entries@[i]).text@) by {
            assert(u.contains(entries@[i])) by {
                if u.len() <= limit as int {
                } else {
                    assert(entries@[i] == u[i]);
                }
            }
            let j = choose|j: int| 0 <= j < u.len() && u[j] == entries@[i];
            assert(acc.entries@.contains(u[j]) || u[j] == eg);
            if acc.entries@.contains(u[j]) {
                let k = choose|k: int| 0 <= k < acc.entries@.len() && acc.entries@[k] == u[j];
                assert(utf8_ok(acc.entries@[k].text@));
            }
        }
    }
    Accum { limit, entries, counter: counter + 1 }
}

/// Reads the kept texts out of the accumulator, in canonical entry order.
pub fn _scylla_internal_topn_final(acc: Accum) -> (r: Vec<Vec<u8>>)
    ensures
        text_views(r@) == acc.entries@.map_values(|e: Entry| e.text@),
{
    let ghost want = acc.entries@.map_values(|e: Entry| e.text@);
    let mut out: Vec<Vec<u8>> = Vec::new();
    let mut i: usize = 0;
    proof {
        assert(text_views(out@) =~= want.take(0));
    }
    while i < acc.entries.len()
        invariant
            i <= acc.entries@.len(),
            want == acc.entries@.map_values(|e: Entry| e.text@),
            want.len() == acc.entries@.len(),
            text_views(out@) == want.take(i as int),
        decreases acc.entries@.len() - i,
    {
        let t = copy_bytes(&acc.entries[i].text);
        out.push(t);
        proof {
            assert(want.take(i as int + 1) =~= want.take(i as int).push(want[i as int]));
            assert(text_views(out@) =~= want.take(i as int + 1));
        }
        i = i + 1;
    }
    proof {
        assert(want.take(acc.entries@.len() as int) =~= want);
    }
    out
}


/// The declared type of the top-of-set wrapper's first argument.
pub open spec fn opt_text_set_type() -> TypeDesc {
    TypeDesc::Optional(Box::new(TypeDesc::SetOf(Box::new(TypeDesc::Text))))
}

/// The declared type of the top-of-set wrapper's second argument.
pub open spec fn opt_u16_type() -> TypeDesc {
    TypeDesc::Optional(Box::new(TypeDesc::Scalar(ScalarType::U16)))
}

/// The text payload of a text value.
pub open spec fn text_payload(w: Val) -> Seq<u8> {
    match w {
        Val::Text(b) => b,
        _ => Seq::empty(),
    }
}

/// Every element is a text value.
pub open spec fn all_texts(ws: Seq<Val>) -> bool {
    forall|i: int| 0 <= i < ws.len() ==> (#[trigger] ws[i]) is Text
}

/// The text payloads of a sequence of text values.
pub open spec fn text_payloads(ws: Seq<Val>) -> Seq<Seq<u8>> {
    ws.map_values(|w: Val| text_payload(w))
}

/// The texts as text values.
pub open spec fn texts_as_vals(ts: Seq<Seq<u8>>) -> Seq<Val> {
    ts.map_values(|t: Seq<u8>| Val::Text(t))
}

/// The sequence-of-texts value a list of texts encodes as.
pub open spec fn out_val(ts: Seq<Seq<u8>>) -> Val {
    Val::Sequence(texts_as_vals(ts))
}

/// The texts of an optional set-of-text value: the outer option mirrors
/// absence, and a value of any other shape has no reading.
pub open spec fn as_opt_set_texts(w: Val) -> Option<Option<Seq<Seq<u8>>>> {
    match w {
        Val::Optional(o) => match o {
            Option::None => Option::Some(Option::None),
            Option::Some(b) => match *b {
                Val::SetOf(ws) => if all_texts(ws) {
                    Option::Some(Option::Some(text_payloads(ws)))
                } else {
                    Option::None
                },
                _ => Option::None,
            },
        },
        _ => Option::None,
    }
}

/// The count of an optional 16-bit value.
pub open spec fn as_opt_u16v(w: Val) -> Option<Option<u16>> {
    match w {
        Val::Optional(o) => match o {
            Option::None => Option::Some(Option::None),
            Option::Some(b) => match *b {
                Val::Scalar(s) => match s {
                    Scalar::U16(n) => Option::Some(Option::Some(n)),
                    _ => Option::None,
                },
                _ => Option::None,
            },
        },
        _ => Option::None,
    }
}

/// Converts a decoded optional set of texts into the native set type,
/// checking canonical order and UTF-8 validity.
fn to_opt_textset(v: Value) -> (r: Option<Option<TextSet>>)
    ensures
        match r {
            Option::Some(o) => match o {
                Option::None => as_opt_set_texts(vmodel(v)) == Option::Some(
                    Option::None::<Seq<Seq<u8>>>,
                ),
                Option::Some(ts) => ts.inv() && as_opt_set_texts(vmodel(v)) == Option::Some(
                    Option::Some(ts.texts()),
                ),
            },
            Option::None => true,
        },
{
    let ghost mv = vmodel(v);
    match &v {
        Value::Optional(o) => match o {
            Option::None => {
                proof {
                    assert(mv == Val::Optional(Option::None::<Box<Val>>));
                }
                Option::Some(Option::None)
            },
            Option::Some(bx) => match &**bx {
                Value::SetOf(vs) => {
                    let ghost ws = vmodels(vs@);
                    proof {
                        lemma_vmodels_index(vs@);
                        assert(vmodel(**bx) == Val::SetOf(ws));
                        assert(mv == Val::Optional(Option::Some(Box::new(Val::SetOf(ws)))));
                    }
                    let mut items: Vec<Vec<u8>> = Vec::new();
                    let mut i: usize = 0;
                    proof {
                        assert(text_views(items@) =~= text_payloads(ws).take(0));
                    }
                    while i < vs.len()
                        invariant
                            i <= vs@.len(),
                            ws == vmodels(vs@),
                            ws.len() == vs@.len(),
                            forall|j: int| 0 <= j < vs@.len() ==> ws[j] == vmodel(#[trigger] vs@[j]),
                            forall|j: int| 0 <= j < i ==> (#[trigger] ws[j]) is Text,
                            text_views(items@) == text_payloads(ws).take(i as int),
                            items@.len() == i,
                            forall|j: int|
                                0 <= j < i ==> utf8_ok(#[trigger] text_views(items@)[j]),
                            forall|j: int|
                                0 <= j < i - 1 ==> bytes_lt(
                                    #[trigger] text_views(items@)[j],
                                    text_views(items@)[j + 1],
                                ),
                        decreases vs@.len() - i,
                    {
                        match &vs[i] {
                            Value::Text(t) => {
                                if !crate::utf8::check_utf8(t.as_slice()) {
                                    return Option::None;
                                }
                                if i > 0 {
                                    let c = bytes_cmp(&items[i - 1], t);
                                    if c != -1 {
                                        return Option::None;
                                    }
                                }
                                let tc = copy_bytes(t);
                                items.push(tc);
                                proof {
                                    assert(ws[i as int] == Val::Text(t@));
                                    assert(text_payloads(ws)[i as int] == t@);
                                    assert(text_views(items@) =~= text_payloads(ws).take(
                                        i as int + 1,
                                    ));
                                }
                            },
                            _ => {
                                return Option::None;
                            },
                        }
                        i = i + 1;
                    }
                    proof {
                        assert(text_payloads(ws).take(vs@.len() as int) =~= text_payloads(ws));
                        assert(all_texts(ws));
                        assert(as_opt_set_texts(mv) == Option::Some(Option::Some(
                            text_payloads(ws),
                        )));
                    }
                    let ts = TextSet { items };
                    proof {
                        assert(ts.texts() == text_payloads(ws));
                        assert(ts.inv());
                    }
                    Option::Some(Option::Some(ts))
                },
                _ => Option::None,
            },
        },
        _ => Option::None,
    }
}

/// Converts a decoded optional 16-bit count into the native option.
fn to_opt_u16(v: Value) -> (r: Option<Option<u16>>)
    ensures
        match r {
            Option::Some(o) => as_opt_u16v(vmodel(v)) == Option::Some(o),
            Option::None => true,
        },
{
    let ghost mv = vmodel(v);
    match &v {
        Value::Optional(o) => match o {
            Option::None => {
                proof {
                    assert(mv == Val::Optional(Option::None::<Box<Val>>));
                }
                Option::Some(Option::None)
            },
            Option::Some(bx) => match &**bx {
                Value::Scalar(s) => match s {
                    Scalar::U16(n) => {
                        proof {
                            assert(vmodel(**bx) == Val::Scalar(Scalar::U16(*n)));
                            assert(mv == Val::Optional(Option::Some(Box::new(Val::Scalar(
                                Scalar::U16(*n),
                            )))));
                        }
                        Option::Some(Option::Some(*n))
                    },
                    _ => Option::None,
                },
                _ => Option::None,
            },
        },
        _ => Option::None,
    }
}

/// Builds the sequence-of-texts result value, or nothing when it would not
/// fit a length field.
fn texts_to_value(ts: Vec<Vec<u8>>) -> (r: Option<Value>)
    requires
        forall|j: int| 0 <= j < ts@.len() ==> utf8_ok(#[trigger] text_views(ts@)[j]),
    ensures
        match r {
            Option::Some(v) => vmodel(v) == out_val(text_views(ts@)) && wf(vmodel(v)),
            Option::None => true,
        },
{
    let ghost want = texts_as_vals(text_views(ts@));
    let mut ts = ts;
    let mut out: Vec<Value> = Vec::new();
    let mut acc: u64 = 4;
    let ghost orig = want;
    proof {
        assert(vmodels(out@) =~= orig.take(0));
        assert(crate::wire::entries_bytes(orig.take(0)).len() == 0);
        assert(forall|j: int|
            0 <= j < orig.len() ==> orig[j] == Val::Text(#[trigger] text_views(ts@)[j]));
    }
    let ghost torig = ts@;
    let mut i: usize = 0;
    while i < ts.len()
        invariant
            i <= ts@.len(),
            ts@ == torig,
            orig == texts_as_vals(text_views(torig)),
            orig.len() == torig.len(),
            forall|j: int|
                0 <= j < torig.len() ==> orig[j] == Val::Text(#[trigger] text_views(torig)[j]),
            forall|j: int| 0 <= j < torig.len() ==> utf8_ok(#[trigger] text_views(torig)[j]),
            vmodels(out@) == orig.take(i as int),
            acc == 4 + crate::wire::entries_bytes(orig.take(i as int)).len(),
            acc < 0xFFFF_FFFF,
            forall|j: int| 0 <= j < i ==> wf(#[trigger] orig.take(i as int)[j]),
        decreases ts@.len() - i,
    {
        let l = ts[i].len();
        if l >= 0xFFFF_FFFF {
            return Option::None;
        }
        let t = copy_bytes(&ts[i]);
        let ghost tl = t@.len() as int;
        let v = Value::Text(t);
        proof {
            assert(vmodel(v) == orig[i as int]);
            assert(wf(orig[i as int])) by {
                assert(wire_bytes(Val::Text(text_views(torig)[i as int])).len() == tl);
            }
            lemma_vmodels_push(out@, v);
            assert(orig.take(i as int + 1) =~= orig.take(i as int).push(orig[i as int]));
            crate::wire::lemma_entries_push(orig.take(i as int), orig[i as int]);
            assert(crate::wire::block_bytes(orig[i as int]).len() == 4 + tl);
        }
        out.push(v);
        acc = acc + 4 + (l as u64);
        if acc >= 0xFFFF_FFFF {
            return Option::None;
        }
        proof {
            assert forall|j: int|
                0 <= j < i + 1 implies wf(#[trigger] orig.take(i as int + 1)[j]) by {
                if j < i {
                    assert(orig.take(i as int + 1)[j] == orig.take(i as int)[j]);
                } else {
                    assert(orig.take(i as int + 1)[j] == orig[i as int]);
                }
            }
        }
        i = i + 1;
    }
    proof {
        assert(orig.take(ts@.len() as int) =~= orig);
        assert(wire_bytes(out_val(text_views(torig))).len() == acc);
        assert(wf(out_val(text_views(torig)))) by {
            assert(forall|j: int| 0 <= j < orig.len() ==> wf(#[trigger] orig[j]));
        }
    }
    Option::Some(Value::Sequence(out))
}


/// What the top-of-set call returns for the decoded readings of its inputs.
pub open spec fn top3_texts(o1: Option<Seq<Seq<u8>>>, o2: Option<u16>) -> Seq<Seq<u8>> {
    match o1 {
        Option::None => seq![null_text()],
        Option::Some(ts) => match o2 {
            Option::None => seq![null2_text()],
            Option::Some(n) => if n as int <= ts.len() {
                ts.take(n as int)
            } else {
                ts
            },
        },
    }
}

/// The exported wrapper for the top-of-set function, in the shape the host
/// calls: two sized pointers in, one sized pointer out. Both input buffers
/// are released exactly once, whatever the outcome; on success the caller
/// owns a fresh buffer holding the encoded text sequence.
#[verifier::rlimit(100)]
#[verifier::spinoff_prover]
pub fn top3(m: &mut Memory, strings: u64, topn: u64) -> (r: Result<u64, Fault>)
    requires
        crate::bridge::valid_handle(*old(m), strings),
        crate::bridge::valid_handle(*old(m), topn),
        crate::bridge::is_absent(strings) || crate::bridge::is_absent(topn)
            || crate::bridge::spec_addr_of(strings) != crate::bridge::spec_addr_of(topn),
    ensures
        !crate::bridge::is_absent(strings) ==> !final(m).live(crate::bridge::spec_addr_of(strings)),
        !crate::bridge::is_absent(topn) ==> !final(m).live(crate::bridge::spec_addr_of(topn)),
        ({
            let w1 = if crate::bridge::is_absent(strings) {
                Ok::<Val, Fault>(Val::Optional(Option::None))
            } else {
                crate::codec::spec_decode(
                    opt_text_set_type(),
                    old(m).content(crate::bridge::spec_addr_of(strings)),
                )
            };
            let w2 = if crate::bridge::is_absent(topn) {
                Ok::<Val, Fault>(Val::Optional(Option::None))
            } else {
                crate::codec::spec_decode(
                    opt_u16_type(),
                    old(m).content(crate::bridge::spec_addr_of(topn)),
                )
            };
            match r {
                Ok(h) => {
                    &&& w1 matches Ok(m1) && as_opt_set_texts(m1) matches Option::Some(o1)
                        && (w2 matches Ok(m2) && as_opt_u16v(m2) matches Option::Some(o2)
                        && {
                        &&& !crate::bridge::is_absent(h)
                        &&& !old(m).live(crate::bridge::spec_addr_of(h))
                        &&& final(m).live(crate::bridge::spec_addr_of(h))
                        &&& final(m).content(crate::bridge::spec_addr_of(h)) == wire_bytes(
                            out_val(top3_texts(o1, o2)),
                        )
                        &&& crate::bridge::spec_len_of(h) as int == wire_bytes(
                            out_val(top3_texts(o1, o2)),
                        ).len()
                    })
                },
                Err(e) => {
                    ||| w1 == Err::<Val, Fault>(e)
                    ||| (w1 is Ok && w2 == Err::<Val, Fault>(e))
                    ||| e == Fault::DecodeSizeMismatch
                    ||| e == Fault::AllocationFailure
                },
            }
        }),
{
    let t1 = TypeDesc::Optional(Box::new(TypeDesc::SetOf(Box::new(TypeDesc::Text))));
    let t2 = TypeDesc::Optional(Box::new(TypeDesc::Scalar(ScalarType::U16)));
    proof {
        assert(t1 == opt_text_set_type());
        assert(t2 == opt_u16_type());
    }
    let r1 = crate::bridge::consume_value(m, &t1, strings);
    proof {
        if !crate::bridge::is_absent(topn) {
            let ta = crate::bridge::spec_addr_of(topn);
            if !crate::bridge::is_absent(strings) {
                assert(m.slots@[ta as int - 1] == old(m).slots@[ta as int - 1]);
            }
            assert(m.live(ta) && m.content(ta) == old(m).content(ta));
        }
    }
    let r2 = crate::bridge::consume_value(m, &t2, topn);
    let v1 = match r1 {
        Ok(v) => v,
        Err(e) => {
            return Err(e);
        },
    };
    let v2 = match r2 {
        Ok(v) => v,
        Err(e) => {
            return Err(e);
        },
    };
    let s_arg = match to_opt_textset(v1) {
        Option::Some(o) => o,
        Option::None => {
            return Err(Fault::DecodeSizeMismatch);
        },
    };
    let n_arg = match to_opt_u16(v2) {
        Option::Some(o) => o,
        Option::None => {
            return Err(Fault::DecodeSizeMismatch);
        },
    };
    let ghost gs = s_arg;
    let ghost gn = n_arg;
    let ts = _scylla_internal_top3(s_arg, n_arg);
    proof {
        assert forall|j: int| 0 <= j < ts@.len() implies utf8_ok(#[trigger] text_views(ts@)[j]) by {
            assert(text_views(ts@) == spec_top3(gs, gn));
            match gs {
                Option::None => {
                    assert(utf8_ok(null_text())) by {
                        reveal_with_fuel(crate::utf8::utf8_ok_from, 8);
                    }
                },
                Option::Some(set) => match gn {
                    Option::None => {
                        assert(utf8_ok(null2_text())) by {
                            reveal_with_fuel(crate::utf8::utf8_ok_from, 9);
                        }
                    },
                    Option::Some(n) => {
                        assert(set.inv());
                        if n as int <= set.texts().len() {
                            assert(text_views(ts@)[j] == set.texts().take(n as int)[j]);
                            assert(set.texts().take(n as int)[j] == set.texts()[j]);
                        } else {
                            assert(text_views(ts@)[j] == set.texts()[j]);
                        }
                    },
                },
            }
        }
    }
    let outv = match texts_to_value(ts) {
        Option::Some(v) => v,
        Option::None => {
            return Err(Fault::AllocationFailure);
        },
    };
    proof {
        match gs {
            Option::None => {
                assert(spec_top3(gs, gn) == top3_texts(Option::None, gn));
            },
            Option::Some(set) => {
                assert(spec_top3(gs, gn) == top3_texts(Option::Some(set.texts()), gn));
            },
        }
    }
    match crate::bridge::produce_value(m, &outv) {
        Ok(h) => {
            proof {
                assert(vmodel(outv) != Val::Optional(Option::None::<Box<Val>>));
            }
            Ok(h)
        },
        Err(e) => Err(e),
    }
}


/// The declared type of the accumulator the final step receives.
pub open spec fn acc_type() -> TypeDesc {
    TypeDesc::Tuple3(
        Box::new(TypeDesc::Scalar(ScalarType::U32)),
        Box::new(TypeDesc::SetOf(Box::new(TypeDesc::Tuple3(
            Box::new(TypeDesc::Scalar(ScalarType::U32)),
            Box::new(TypeDesc::Text),
            Box::new(TypeDesc::Scalar(ScalarType::U32)),
        )))),
        Box::new(TypeDesc::Scalar(ScalarType::U32)),
    )
}

/// The entry has the accumulator entry shape: rank, text, sequence number.
pub open spec fn entry3_shaped(w: Val) -> bool {
    match w {
        Val::Tuple3(a, t, c) => (*a matches Val::Scalar(Scalar::U32(_))) && (*t matches Val::Text(
            _,
        )) && (*c matches Val::Scalar(Scalar::U32(_))),
        _ => false,
    }
}

/// The text of an accumulator entry.
pub open spec fn entry3_text(w: Val) -> Seq<u8> {
    match w {
        Val::Tuple3(a, t, c) => text_payload(*t),
        _ => Seq::empty(),
    }
}

/// The entry texts of an accumulator value, in order, when it has the
/// accumulator shape.
pub open spec fn acc_entry_texts(w: Val) -> Option<Seq<Seq<u8>>> {
    match w {
        Val::Tuple3(l, es, c) => match (*l, *es, *c) {
            (Val::Scalar(Scalar::U32(_)), Val::SetOf(ws), Val::Scalar(Scalar::U32(_))) => if
                forall|i: int| 0 <= i < ws.len() ==> entry3_shaped(#[trigger] ws[i]) {
                Option::Some(ws.map_values(|w2: Val| entry3_text(w2)))
            } else {
                Option::None
            },
            _ => Option::None,
        },
        _ => Option::None,
    }
}

/// Converts a decoded accumulator value into the native accumulator, checking
/// the entry shape, canonical entry order and UTF-8 validity.
#[verifier::rlimit(100)]
#[verifier::spinoff_prover]
fn to_accum(v: Value) -> (r: Option<Accum>)
    ensures
        match r {
            Option::Some(acc) => acc.inv() && acc_entry_texts(vmodel(v)) == Option::Some(
                acc.entries@.map_values(|e: Entry| e.text@),
            ),
            Option::None => true,
        },
{
    let ghost mv = vmodel(v);
    match &v {
        Value::Tuple3(bl, bes, bc) => match (&**bl, &**bes, &**bc) {
            (
                Value::Scalar(Scalar::U32(limit)),
                Value::SetOf(vs),
                Value::Scalar(Scalar::U32(counter)),
            ) => {
                let ghost ws = vmodels(vs@);
                proof {
                    lemma_vmodels_index(vs@);
                    assert(vmodel(**bl) == Val::Scalar(Scalar::U32(*limit)));
                    assert(vmodel(**bes) == Val::SetOf(ws));
                    assert(vmodel(**bc) == Val::Scalar(Scalar::U32(*counter)));
                    assert(mv == Val::Tuple3(
                        Box::new(Val::Scalar(Scalar::U32(*limit))),
                        Box::new(Val::SetOf(ws)),
                        Box::new(Val::Scalar(Scalar::U32(*counter))),
                    ));
                }
                let ghost want = ws.map_values(|w2: Val| entry3_text(w2));
                let mut entries: Vec<Entry> = Vec::new();
                let mut i: usize = 0;
                proof {
                    assert(entries@.map_values(|e: Entry| e.text@) =~= want.take(0));
                }
                while i < vs.len()
                    invariant
                        i <= vs@.len(),
                        ws == vmodels(vs@),
                        ws.len() == vs@.len(),
                        want == ws.map_values(|w2: Val| entry3_text(w2)),
                        want.len() == ws.len(),
                        forall|j: int| 0 <= j < vs@.len() ==> ws[j] == vmodel(#[trigger] vs@[j]),
                        forall|j: int| 0 <= j < i ==> entry3_shaped(#[trigger] ws[j]),
                        entries@.len() == i,
                        entries@.map_values(|e: Entry| e.text@) == want.take(i as int),
                        forall|j: int|
                            0 <= j < i ==> utf8_ok((#[trigger] entries@[j]).text@),
                        forall|j: int|
                            0 <= j < i - 1 ==> entry_lt(#[trigger] entries@[j], entries@[j + 1]),
                    decreases vs@.len() - i,
                {
                    match &vs[i] {
                        Value::Tuple3(ba, bt, bq) => match (&**ba, &**bt, &**bq) {
                            (
                                Value::Scalar(Scalar::U32(rank)),
                                Value::Text(t),
                                Value::Scalar(Scalar::U32(seqno)),
                            ) => {
                                if !crate::utf8::check_utf8(t.as_slice()) {
                                    return Option::None;
                                }
                                let e = Entry {
                                    rank: *rank,
                                    text: copy_bytes(t),
                                    seqno: *seqno,
                                };
                                if i > 0 {
                                    let c = entry_cmp(&entries[i - 1], &e);
                                    if c != -1 {
                                        return Option::None;
                                    }
                                }
                                proof {
                                    assert(vmodel(**ba) == Val::Scalar(Scalar::U32(*rank)));
                                    assert(vmodel(**bt) == Val::Text(t@));
                                    assert(vmodel(**bq) == Val::Scalar(Scalar::U32(*seqno)));
                                    assert(ws[i as int] == vmodel(vs@[i as int]));
                                    assert(ws[i as int] == Val::Tuple3(
                                        Box::new(Val::Scalar(Scalar::U32(*rank))),
                                        Box::new(Val::Text(t@)),
                                        Box::new(Val::Scalar(Scalar::U32(*seqno))),
                                    ));
                                    assert(entry3_shaped(ws[i as int]));
                                    assert(entry3_text(ws[i as int]) == t@);
                                    assert(want[i as int] == t@);
                                }
                                let ghost before = entries@;
                                entries.push(e);
                                proof {
                                    assert(entries@.map_values(|e2: Entry| e2.text@) =~= want.take(
                                        i as int + 1,
                                    )) by {
                                        assert(entries@ =~= before.push(e));
                                        assert forall|j: int|
                                            0 <= j < i + 1 implies (#[trigger] entries@[j]).text@
                                            == want.take(i as int + 1)[j] by {
                                            if j < i {
                                                assert(entries@[j] == before[j]);
                                                assert(before.map_values(|e2: Entry| e2.text@)[j]
                                                    == want.take(i as int)[j]);
                                            } else {
                                                assert(entries@[j] == e);
                                            }
                                        }
                                    }
                                }
                                i = i + 1;
                            },
                            _ => {
                                return Option::None;
                            },
                        },
                        _ => {
                            return Option::None;
                        },
                    }
                }
                proof {
                    assert(want.take(vs@.len() as int) =~= want);
                    assert(forall|j: int| 0 <= j < ws.len() ==> entry3_shaped(#[trigger] ws[j]));
                    assert(acc_entry_texts(mv) == Option::Some(want));
                }
                let acc = Accum { limit: *limit, entries, counter: *counter };
                proof {
                    assert(acc.inv());
                    assert(acc.entries@.map_values(|e: Entry| e.text@) == want);
                }
                Option::Some(acc)
            },
            _ => Option::None,
        },
        _ => Option::None,
    }
}

/// The exported wrapper for the accumulator's final step: decodes the
/// accumulator from its sized pointer, releasing the buffer exactly once, and
/// hands back a fresh buffer with the kept texts encoded as a sequence.
#[verifier::rlimit(100)]
#[verifier::spinoff_prover]
pub fn topn_final(m: &mut Memory, acc: u64) -> (r: Result<u64, Fault>)
    requires
        crate::bridge::valid_handle(*old(m), acc),
        !crate::bridge::is_absent(acc),
    ensures
        !final(m).live(crate::bridge::spec_addr_of(acc)),
        ({
            let w = crate::codec::spec_decode(
                acc_type(),
                old(m).content(crate::bridge::spec_addr_of(acc)),
            );
            match r {
                Ok(h) => {
                    &&& w matches Ok(mw) && acc_entry_texts(mw) matches Option::Some(ts) && {
                        &&& !crate::bridge::is_absent(h)
                        &&& !old(m).live(crate::bridge::spec_addr_of(h))
                        &&& final(m).live(crate::bridge::spec_addr_of(h))
                        &&& final(m).content(crate::bridge::spec_addr_of(h)) == wire_bytes(
                            out_val(ts),
                        )
                        &&& crate::bridge::spec_len_of(h) as int == wire_bytes(out_val(ts)).len()
                    }
                },
                Err(e) => {
                    ||| w == Err::<Val, Fault>(e)
                    ||| e == Fault::DecodeSizeMismatch
                    ||| e == Fault::AllocationFailure
                },
            }
        }),
{
    let t = TypeDesc::Tuple3(
        Box::new(TypeDesc::Scalar(ScalarType::U32)),
        Box::new(TypeDesc::SetOf(Box::new(TypeDesc::Tuple3(
            Box::new(TypeDesc::Scalar(ScalarType::U32)),
            Box::new(TypeDesc::Text),
            Box::new(TypeDesc::Scalar(ScalarType::U32)),
        )))),
        Box::new(TypeDesc::Scalar(ScalarType::U32)),
    );
    proof {
        assert(t == acc_type());
    }
    let rv = crate::bridge::consume_value(m, &t, acc);
    let v = match rv {
        Ok(v) => v,
        Err(e) => {
            return Err(e);
        },
    };
    let a = match to_accum(v) {
        Option::Some(a) => a,
        Option::None => {
            return Err(Fault::DecodeSizeMismatch);
        },
    };
    let ghost ga = a;
    let ts = _scylla_internal_topn_final(a);
    proof {
        assert forall|j: int| 0 <= j < ts@.len() implies utf8_ok(#[trigger] text_views(ts@)[j]) by {
            assert(text_views(ts@) == ga.entries@.map_values(|e: Entry| e.text@));
            assert(text_views(ts@)[j] == ga.entries@[j].text@);
            assert(utf8_ok(ga.entries@[j].text@));
        }
    }
    let outv = match texts_to_value(ts) {
        Option::Some(v2) => v2,
        Option::None => {
            return Err(Fault::AllocationFailure);
        },
    };
    match crate::bridge::produce_value(m, &outv) {
        Ok(h) => {
            proof {
                assert(vmodel(outv) != Val::Optional(Option::None::<Box<Val>>));
            }
            Ok(h)
        },
        Err(e) => Err(e),
    }
}

} // verus!
