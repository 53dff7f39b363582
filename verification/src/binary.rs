use vstd::multiset::Multiset;
use vstd::prelude::*;

verus! {

/// How many leading bytes of a file are inspected to decide whether it is binary.
pub const SNIFF_LEN: usize = 8192;

/// A control byte that is not tab, line feed or carriage return.
pub open spec fn is_control_byte(b: u8) -> bool {
    b < 0x20 && b != 0x09 && b != 0x0a && b != 0x0d
}

/// Number of control bytes (in the sense of `is_control_byte`) in `s`.
pub open spec fn control_count(s: Seq<u8>) -> nat
    decreases s.len(),
{
    if s.len() == 0 {
        0
    } else {
        control_count(s.drop_last()) + if is_control_byte(s.last()) { 1nat } else { 0nat }
    }
}

/// A chunk is binary when it is non-empty and either holds a NUL byte or
/// more than 30% of its bytes are control bytes.
pub open spec fn spec_is_binary(s: Seq<u8>) -> bool {
    s.len() > 0 && (s.contains(0u8) || 10 * control_count(s) > 3 * s.len())
}

/// Inspect the first chunk of a file for binary content.
/// Returns `true` if the buffer contains a null byte (`0x00`) or if more than
/// 30% of the bytes are non-printable control characters (excluding `\t`, `\n`, `\r`).
pub fn is_binary(chunk: &[u8]) -> (r: bool)
    ensures
        r == spec_is_binary(chunk@),
{
    let len = chunk.len();
    if len == 0 {
        return false;
    }
    let mut i: usize = 0;
    let mut controls: usize = 0;
    let mut has_nul = false;
    while i < len
        invariant
            len == chunk@.len(),
            i <= len,
            controls == control_count(chunk@.take(i as int)),
            controls <= i,
            has_nul <==> chunk@.take(i as int).contains(0u8),
        decreases len - i,
    {
        let b = chunk[i];
        let ghost prev = chunk@.take(i as int);
        assert(chunk@.take(i + 1) =~= prev.push(b));
        proof {
            if prev.push(b).contains(0u8) && b != 0u8 {
                let k = choose|k: int| 0 <= k < prev.push(b).len() && prev.push(b)[k] == 0u8;
                assert(prev[k] == 0u8);
            }
            if prev.contains(0u8) {
                let k = choose|k: int| 0 <= k < prev.len() && prev[k] == 0u8;
                assert(prev.push(b)[k] == 0u8);
            }
            if b == 0u8 {
                assert(prev.push(b)[i as int] == 0u8);
            }
        }
        if b == 0 {
            has_nul = true;
        }
        if b < 0x20 && b != 0x09 && b != 0x0a && b != 0x0d {
            controls = controls + 1;
        }
        assert(prev.push(b).drop_last() =~= prev);
        i = i + 1;
    }
    assert(chunk@.take(len as int) =~= chunk@);
    if has_nul {
        return true;
    }
    (controls as u128) * 10 > (len as u128) * 3
}

/// The control bytes of a multiset of bytes whose values lie below `b`.
pub open spec fn control_total_below(m: Multiset<u8>, b: nat) -> nat
    decreases b,
{
    if b == 0 {
        0
    } else {
        control_total_below(m, (b - 1) as nat) + if is_control_byte((b - 1) as u8) {
            m.count((b - 1) as u8)
        } else {
            0
        }
    }
}

proof fn lemma_control_total_insert(m: Multiset<u8>, x: u8, b: nat)
    requires
        b <= 256,
    ensures
        control_total_below(m.insert(x), b) == control_total_below(m, b) + if x < b && is_control_byte(x) {
            1nat
        } else {
            0nat
        },
    decreases b,
{
    broadcast use vstd::multiset::group_multiset_axioms;

    if b > 0 {
        lemma_control_total_insert(m, x, (b - 1) as nat);
        let v = (b - 1) as u8;
        assert(v as nat == b - 1);
        if x == v {
            assert(m.insert(x).count(v) == m.count(v) + 1);
        } else {
            assert(m.insert(x).count(v) == m.count(v));
        }
    }
}

proof fn lemma_control_count_by_multiset(s: Seq<u8>)
    ensures
        control_count(s) == control_total_below(s.to_multiset(), 256),
    decreases s.len(),
{
    broadcast use vstd::multiset::group_multiset_axioms;

    if s.len() == 0 {
        assert(s.to_multiset() =~= Multiset::<u8>::empty()) by {
            vstd::seq_lib::to_multiset_len(s);
        }
        lemma_control_total_empty(256);
    } else {
        let d = s.drop_last();
        lemma_control_count_by_multiset(d);
        assert(s =~= d.push(s.last()));
        vstd::seq_lib::to_multiset_build(d, s.last());
        lemma_control_total_insert(d.to_multiset(), s.last(), 256);
    }
}

proof fn lemma_control_total_empty(b: nat)
    ensures
        control_total_below(Multiset::<u8>::empty(), b) == 0,
    decreases b,
{
    broadcast use vstd::multiset::group_multiset_axioms;

    if b > 0 {
        lemma_control_total_empty((b - 1) as nat);
    }
}

/// Whether a chunk is binary does not depend on the order of its bytes: two
/// chunks holding the same bytes the same number of times get the same
/// answer.
pub proof fn lemma_is_binary_ignores_order(s1: Seq<u8>, s2: Seq<u8>)
    requires
        s1.to_multiset() == s2.to_multiset(),
    ensures
        spec_is_binary(s1) == spec_is_binary(s2),
{
    vstd::seq_lib::to_multiset_len(s1);
    vstd::seq_lib::to_multiset_len(s2);
    vstd::seq_lib::to_multiset_contains(s1, 0u8);
    vstd::seq_lib::to_multiset_contains(s2, 0u8);
    lemma_control_count_by_multiset(s1);
    lemma_control_count_by_multiset(s2);
}

/// Each byte appended to a chunk adds one to its count of control bytes
/// exactly when it lies below 0x20 and is none of tab, line feed and
/// carriage return.
pub proof fn lemma_control_count_push(s: Seq<u8>, b: u8)
    ensures
        control_count(s.push(b)) == control_count(s) + if b < 0x20 && b != 0x09 && b != 0x0a && b
            != 0x0d {
            1nat
        } else {
            0nat
        },
{
    assert(s.push(b).drop_last() =~= s);
}

/// Text is never binary: a chunk whose bytes are all printable (0x20 and up)
/// or tabs, line feeds and carriage returns counts no control byte and holds
/// no NUL.
pub proof fn lemma_text_is_not_binary(s: Seq<u8>)
    requires
        forall|i: int|
            0 <= i < s.len() ==> #[trigger] s[i] >= 0x20 || s[i] == 0x09 || s[i] == 0x0a || s[i] == 0x0d,
    ensures
        control_count(s) == 0,
        !spec_is_binary(s),
    decreases s.len(),
{
    if s.len() > 0 {
        let d = s.drop_last();
        assert(forall|i: int| 0 <= i < d.len() ==> d[i] == s[i]);
        lemma_text_is_not_binary(d);
        assert(s.last() == s[s.len() - 1]);
    }
    if s.contains(0u8) {
        let k = choose|k: int| 0 <= k < s.len() && s[k] == 0u8;
        assert(s[k] == 0u8);
    }
}

/// A non-empty chunk made only of control bytes (below 0x20, other than tab,
/// line feed and carriage return) counts every byte and is binary.
pub proof fn lemma_control_bytes_are_binary(s: Seq<u8>)
    requires
        s.len() > 0,
        forall|i: int|
            0 <= i < s.len() ==> #[trigger] s[i] < 0x20 && s[i] != 0x09 && s[i] != 0x0a && s[i] != 0x0d,
    ensures
        control_count(s) == s.len(),
        spec_is_binary(s),
    decreases s.len(),
{
    let d = s.drop_last();
    assert(forall|i: int| 0 <= i < d.len() ==> d[i] == s[i]);
    if d.len() > 0 {
        lemma_control_bytes_are_binary(d);
    } else {
        assert(control_count(d) == 0);
    }
    assert(s.last() == s[s.len() - 1]);
}

/// A chunk holding a NUL byte is binary; a non-empty chunk without one is
/// binary exactly when more than 30% of its bytes are control bytes; an
/// empty chunk is not binary.
pub proof fn lemma_binary_threshold(s: Seq<u8>)
    ensures
        s.contains(0u8) ==> spec_is_binary(s),
        s.len() > 0 && !s.contains(0u8) ==> (spec_is_binary(s) <==> control_count(s) * 10 > s.len() * 3),
        s.len() == 0 ==> !spec_is_binary(s),
{
    if s.contains(0u8) {
        let k = choose|k: int| 0 <= k < s.len() && s[k] == 0u8;
        assert(s.len() > 0);
    }
}

} // verus!
