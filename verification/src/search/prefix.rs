//! How far a literal is matched at the end of a stream of bytes.
use vstd::prelude::*;

verus! {

/// The stream ends in the first bytes of the literal.
pub open spec fn ends_in_start(needle: Seq<u8>, stream: Seq<u8>, n: int) -> bool {
    &&& 0 <= n <= needle.len()
    &&& n <= stream.len()
    &&& forall|k: int|
        0 <= k < n ==> #[trigger] needle[k] == stream[stream.len() - n + k]
}

/// The longest start of the literal, but not all of it, that the stream ends in.
pub open spec fn longest_start(needle: Seq<u8>, stream: Seq<u8>, n: int) -> bool {
    &&& n < needle.len()
    &&& ends_in_start(needle, stream, n)
    &&& forall|k: int| n < k < needle.len() ==> !#[trigger] ends_in_start(needle, stream, k)
}

/// The longest start of the literal that its own first bytes end in, other than
/// those bytes themselves.
pub open spec fn own_start(needle: Seq<u8>, len: int, n: int) -> bool {
    &&& 0 <= n < len
    &&& ends_in_start(needle, needle.take(len), n)
    &&& forall|k: int| n < k < len ==> !#[trigger] ends_in_start(needle, needle.take(len), k)
}

pub open spec fn is_prefix_table(needle: Seq<u8>, table: Seq<usize>, len: int) -> bool {
    len <= table.len() && forall|i: int|
        0 <= i < len ==> own_start(needle, i + 1, #[trigger] table[i] as int)
}

/// What a stream ends in when the literal is matched some way, the literal ends
/// in too as far as it is matched.
pub proof fn lemma_shorter_start(needle: Seq<u8>, stream: Seq<u8>, n: int, k: int)
    requires
        ends_in_start(needle, stream, n),
        0 <= k <= n,
    ensures
        ends_in_start(needle, stream, k) == ends_in_start(needle, needle.take(n), k),
{
    let head = needle.take(n);
    if ends_in_start(needle, stream, k) {
        assert forall|i: int| 0 <= i < k implies #[trigger] needle[i] == head[head.len() - k + i] by {
            assert(needle[n - k + i] == stream[stream.len() - n + (n - k + i)]);
        }
    }
    if ends_in_start(needle, head, k) {
        assert forall|i: int| 0 <= i < k implies #[trigger] needle[i] == stream[stream.len() - k
            + i] by {
            assert(head[head.len() - k + i] == needle[n - k + i]);
            assert(needle[n - k + i] == stream[stream.len() - n + (n - k + i)]);
        }
    }
}

proof fn lemma_start_grows(needle: Seq<u8>, stream: Seq<u8>, byte: u8, n: int)
    requires
        0 <= n < needle.len(),
    ensures
        ends_in_start(needle, stream.push(byte), n + 1) == (ends_in_start(needle, stream, n)
            && needle[n] == byte),
{
    let more = stream.push(byte);
    if ends_in_start(needle, more, n + 1) {
        assert(needle[n] == more[more.len() - (n + 1) + n]);
        assert forall|k: int| 0 <= k < n implies #[trigger] needle[k] == stream[stream.len() - n
            + k] by {
            assert(needle[k] == more[more.len() - (n + 1) + k]);
        }
    }
    if ends_in_start(needle, stream, n) && needle[n] == byte {
        assert forall|k: int| 0 <= k < n + 1 implies #[trigger] needle[k] == more[more.len() - (n
            + 1) + k] by {
            if k < n {
                assert(needle[k] == stream[stream.len() - n + k]);
            }
        }
    }
}

/// How far the literal is matched after one more byte. All of it may be.
pub open spec fn matched_after(needle: Seq<u8>, stream: Seq<u8>, n: int) -> bool {
    &&& ends_in_start(needle, stream, n)
    &&& forall|k: int| n < k <= needle.len() ==> !#[trigger] ends_in_start(needle, stream, k)
}

/// Takes one more byte of a stream.
pub(crate) fn advance(
    needle: &[u8],
    table: &[usize],
    matched: usize,
    byte: u8,
    stream: Ghost<Seq<u8>>,
) -> (now: usize)
    requires
        longest_start(needle@, stream@, matched as int),
        is_prefix_table(needle@, table@, matched as int),
    ensures
        matched_after(needle@, stream@.push(byte), now as int),
        now <= matched + 1,
{
    let ghost s = stream@;
    let mut n = matched;
    while n > 0 && byte != needle[n]
        invariant
            n <= matched < needle@.len(),
            is_prefix_table(needle@, table@, matched as int),
            ends_in_start(needle@, s, n as int),
            forall|k: int|
                n < k < needle@.len() && #[trigger] ends_in_start(needle@, s, k) ==> needle@[k]
                    != byte,
        decreases n,
    {
        let shorter = table[n - 1];
        proof {
            assert(own_start(needle@, n as int, shorter as int));
            lemma_shorter_start(needle@, s, n as int, shorter as int);
            assert forall|k: int|
                shorter < k < needle@.len() && #[trigger] ends_in_start(
                    needle@,
                    s,
                    k,
                ) implies needle@[k] != byte by {
                if k < n {
                    lemma_shorter_start(needle@, s, n as int, k);
                }
            }
        }
        n = shorter;
    }
    proof {
        let more = s.push(byte);
        assert forall|k: int| n + 1 < k <= needle@.len() implies !#[trigger] ends_in_start(
            needle@,
            more,
            k,
        ) by {
            lemma_start_grows(needle@, s, byte, k - 1);
        }
        lemma_start_grows(needle@, s, byte, n as int);
    }
    if byte == needle[n] {
        n + 1
    } else {
        assert(n == 0);
        0
    }
}

proof fn lemma_own_start(needle: Seq<u8>, len: int, n: int)
    requires
        1 <= len <= needle.len(),
    ensures
        own_start(needle, len, n) == (n < len && longest_within(needle, needle.subrange(1, len), n)),
{
    let head = needle.take(len);
    let rest = needle.subrange(1, len);
    assert forall|k: int|
        #![trigger ends_in_start(needle, head, k)]
        #![trigger ends_in_start(needle, rest, k)]
        k < len implies ends_in_start(needle, head, k) == ends_in_start(needle, rest, k) by {
        if 0 <= k {
            assert forall|i: int| 0 <= i < k implies #[trigger] head[head.len() - k + i]
                == rest[rest.len() - k + i] by {}
        }
    }
}

spec fn longest_within(needle: Seq<u8>, stream: Seq<u8>, n: int) -> bool {
    &&& 0 <= n
    &&& ends_in_start(needle, stream, n)
    &&& forall|k: int| n < k <= stream.len() ==> !#[trigger] ends_in_start(needle, stream, k)
}

/// For every start of a literal, the longest shorter one that it ends in.
pub fn build_literal_search_prefix_table(needle: &[u8]) -> (table: Vec<usize>)
    ensures
        table@.len() == needle@.len(),
        is_prefix_table(needle@, table@, needle@.len() as int),
{
    let len = needle.len();
    let mut table: Vec<usize> = Vec::new();
    if len == 0 {
        return table;
    }
    table.push(0);
    let mut matched: usize = 0;
    let mut ix: usize = 1;
    assert(own_start(needle@, 1, 0));
    while ix < len
        invariant
            len == needle@.len(),
            1 <= ix <= len,
            table@.len() == ix,
            is_prefix_table(needle@, table@, ix as int),
            own_start(needle@, ix as int, matched as int),
        decreases len - ix,
    {
        let ghost rest = needle@.subrange(1, ix as int);
        let byte = needle[ix];
        proof {
            lemma_own_start(needle@, ix as int, matched as int);
            assert forall|k: int| matched < k < needle@.len() implies !#[trigger] ends_in_start(
                needle@,
                rest,
                k,
            ) by {}
        }
        matched = advance(needle, table.as_slice(), matched, byte, Ghost(rest));
        proof {
            let more = needle@.subrange(1, ix + 1);
            assert(more =~= rest.push(byte));
            lemma_own_start(needle@, ix + 1, matched as int);
        }
        table.push(matched);
        ix += 1;
    }
    table
}

} // verus!
