//! DNS wire-protocol codec: building an A-record query for a hostname and
//! parsing a response into the first answer's IPv4 address or a typed failure.
use vstd::prelude::*;

verus! {

/// The byte that separates labels in a hostname (`.`).
pub const LABEL_SEPARATOR: u8 = 0x2e;

/// An IPv4 address as four plain octets, most significant first.
#[derive(Clone, Copy, Debug, PartialEq, Eq, Structural)]
pub struct Ipv4Address {
    pub a: u8,
    pub b: u8,
    pub c: u8,
    pub d: u8,
}

/// Why a response yielded no address.
#[derive(Clone, Copy, Debug, PartialEq, Eq, Structural)]
pub enum DnsClientError {
    /// The response parsed structurally but carried zero answer records.
    UnknownHostname,
    /// A read ran past the end of the buffer: the message is malformed.
    FormatError,
}

/// Index of the first label separator in `s`, or `s.len()` if there is none.
pub open spec fn first_sep(s: Seq<u8>) -> int
    decreases s.len(),
{
    if s.len() == 0 {
        0
    } else if s[0] == LABEL_SEPARATOR {
        0
    } else {
        1 + first_sep(s.skip(1))
    }
}

/// `first_sep` stays within `s`, no separator precedes it, and it points at
/// a separator whenever it is not the end of `s`.
pub proof fn lemma_first_sep_bounds(s: Seq<u8>)
    ensures
        0 <= first_sep(s) <= s.len(),
        forall|k: int| 0 <= k < first_sep(s) ==> s[k] != LABEL_SEPARATOR,
        first_sep(s) < s.len() ==> s[first_sep(s)] == LABEL_SEPARATOR,
    decreases s.len(),
{
    if s.len() == 0 {
    } else if s[0] == LABEL_SEPARATOR {
    } else {
        lemma_first_sep_bounds(s.skip(1));
        assert forall|k: int| 0 <= k < first_sep(s) implies s[k] != LABEL_SEPARATOR by {
            if k > 0 {
                assert(s.skip(1)[k - 1] == s[k]);
            }
        }
        if first_sep(s) < s.len() {
            assert(s.skip(1)[first_sep(s) - 1] == s[first_sep(s)]);
        }
    }
}

/// The first separator is exactly where a scan finds it: at the first
/// position holding a separator, or at the end when none does.
pub proof fn lemma_first_sep_at(s: Seq<u8>, k: int)
    requires
        0 <= k <= s.len(),
        forall|m: int| 0 <= m < k ==> s[m] != LABEL_SEPARATOR,
        k < s.len() ==> s[k] == LABEL_SEPARATOR,
    ensures
        first_sep(s) == k,
    decreases s.len(),
{
    if s.len() == 0 {
    } else if s[0] == LABEL_SEPARATOR {
        assert(k == 0);
    } else {
        assert(s[0] != LABEL_SEPARATOR);
        assert(k >= 1);
        assert forall|m: int| 0 <= m < k - 1 implies s.skip(1)[m] != LABEL_SEPARATOR by {
            assert(s.skip(1)[m] == s[m + 1]);
        }
        if k - 1 < s.skip(1).len() {
            assert(s.skip(1)[k - 1] == s[k]);
        }
        lemma_first_sep_at(s.skip(1), k - 1);
    }
}

/// Wire encoding of the question name for hostname `h`: each `.`-separated
/// label as a length byte followed by the label's bytes, in order. The final
/// zero-length terminator byte is not included here.
pub open spec fn name_bytes(h: Seq<u8>) -> Seq<u8>
    decreases h.len(),
{
    let i = first_sep(h);
    if 0 <= i && i < h.len() {
        seq![i as u8] + h.take(i) + name_bytes(h.skip(i + 1))
    } else {
        seq![h.len() as u8] + h
    }
}

/// Every `.`-separated label of `h` fits in a single length byte.
pub open spec fn labels_fit(h: Seq<u8>) -> bool
    decreases h.len(),
{
    let i = first_sep(h);
    if 0 <= i && i < h.len() {
        i <= 255 && labels_fit(h.skip(i + 1))
    } else {
        h.len() <= 255
    }
}

/// Some `.`-separated label of `h` is empty (leading, trailing, or doubled
/// separator, or an empty hostname).
pub open spec fn has_empty_label(h: Seq<u8>) -> bool
    decreases h.len(),
{
    let i = first_sep(h);
    if 0 <= i && i < h.len() {
        i == 0 || has_empty_label(h.skip(i + 1))
    } else {
        h.len() == 0
    }
}

/// The fixed 12-byte query header: identification 1, flags 0, one question,
/// no answer, authority or additional records; all fields big-endian.
pub open spec fn header_bytes() -> Seq<u8> {
    seq![0u8, 1u8, 0u8, 0u8, 0u8, 1u8, 0u8, 0u8, 0u8, 0u8, 0u8, 0u8]
}

/// The trailer of the question: query type 1 (A) and class 1 (IN), big-endian.
pub open spec fn question_trailer() -> Seq<u8> {
    seq![0u8, 1u8, 0u8, 1u8]
}

/// The complete query message for hostname `h`: header, question name,
/// zero-length root-label terminator, query type and class.
pub open spec fn query_bytes(h: Seq<u8>) -> Seq<u8> {
    header_bytes() + name_bytes(h) + seq![0u8] + question_trailer()
}

/// Serialize `hostname` into a DNS query for an A record in the IN class.
///
/// An empty label (as in `"a..b"`, or an empty hostname) is not rejected: it
/// is written as a zero-length label, exactly as a split on `.` yields it.
/// Such a length byte of zero is indistinguishable from the name terminator,
/// so the resulting message decodes with a shorter name than intended.
pub fn encode(hostname: &[u8]) -> (out: Vec<u8>)
    requires
        labels_fit(hostname@),
    ensures
        out@ == query_bytes(hostname@),
{
    let mut out: Vec<u8> = Vec::new();
    out.push(0);
    out.push(1);
    out.push(0);
    out.push(0);
    out.push(0);
    out.push(1);
    out.push(0);
    out.push(0);
    out.push(0);
    out.push(0);
    out.push(0);
    out.push(0);
    assert(out@ =~= header_bytes());
    let n = hostname.len();
    let mut pos: usize = 0;
    proof {
        assert(hostname@.skip(0) =~= hostname@);
    }
    loop
        invariant_except_break
            pos <= n,
            n == hostname@.len(),
            labels_fit(hostname@.skip(pos as int)),
            out@ + name_bytes(hostname@.skip(pos as int)) == header_bytes() + name_bytes(
                hostname@,
            ),
        ensures
            out@ == header_bytes() + name_bytes(hostname@),
        decreases n - pos,
    {
        let ghost rest = hostname@.skip(pos as int);
        let mut j = pos;
        while j < n && hostname[j] != LABEL_SEPARATOR
            invariant
                pos <= j <= n,
                n == hostname@.len(),
                forall|m: int| pos <= m < j ==> hostname@[m] != LABEL_SEPARATOR,
            decreases n - j,
        {
            j += 1;
        }
        proof {
            assert forall|m: int| 0 <= m < j - pos implies rest[m] != LABEL_SEPARATOR by {
                assert(rest[m] == hostname@[pos + m]);
            }
            if j < n {
                assert(rest[j - pos] == hostname@[j as int]);
            }
            lemma_first_sep_at(rest, j - pos);
        }
        let l = j - pos;
        assert(l <= 255);
        out.push(l as u8);
        let mut k = pos;
        let ghost out_mid = out@;
        while k < j
            invariant
                pos <= k <= j <= n,
                n == hostname@.len(),
                out@ == out_mid + hostname@.subrange(pos as int, k as int),
            decreases j - k,
        {
            let byte = hostname[k];
            out.push(byte);
            proof {
                assert(out@ =~= out_mid + hostname@.subrange(pos as int, k + 1));
            }
            k += 1;
        }
        if j == n {
            proof {
                assert(first_sep(rest) == rest.len());
                assert(name_bytes(rest) =~= seq![l as u8] + hostname@.subrange(
                    pos as int,
                    j as int,
                ));
            }
            break ;
        }
        proof {
            assert(rest.take(j - pos) =~= hostname@.subrange(pos as int, j as int));
            assert(rest.skip(j - pos + 1) =~= hostname@.skip(j + 1));
            assert(name_bytes(rest) == seq![l as u8] + rest.take(j - pos) + name_bytes(
                rest.skip(j - pos + 1),
            ));
        }
        pos = j + 1;
    }
    out.push(0);
    out.push(0);
    out.push(1);
    out.push(0);
    out.push(1);
    proof {
        assert(out@ =~= query_bytes(hostname@));
    }
    out
}

/// Runtime check for `encode`'s precondition: whether every `.`-separated
/// label of `hostname` fits in a single length byte.
pub fn hostname_labels_fit(hostname: &[u8]) -> (b: bool)
    ensures
        b == labels_fit(hostname@),
{
    let n = hostname.len();
    let mut pos: usize = 0;
    proof {
        assert(hostname@.skip(0) =~= hostname@);
    }
    loop
        invariant_except_break
            pos <= n,
            n == hostname@.len(),
            labels_fit(hostname@) == labels_fit(hostname@.skip(pos as int)),
        ensures
            labels_fit(hostname@),
        decreases n - pos,
    {
        let ghost rest = hostname@.skip(pos as int);
        let mut j = pos;
        while j < n && hostname[j] != LABEL_SEPARATOR
            invariant
                pos <= j <= n,
                n == hostname@.len(),
                forall|m: int| pos <= m < j ==> hostname@[m] != LABEL_SEPARATOR,
            decreases n - j,
        {
            j += 1;
        }
        proof {
            assert forall|m: int| 0 <= m < j - pos implies rest[m] != LABEL_SEPARATOR by {
                assert(rest[m] == hostname@[pos + m]);
            }
            if j < n {
                assert(rest[j - pos] == hostname@[j as int]);
            }
            lemma_first_sep_at(rest, j - pos);
        }
        if j - pos > 255 {
            return false;
        }
        if j == n {
            break ;
        }
        proof {
            assert(rest.skip(j - pos + 1) =~= hostname@.skip(j + 1));
        }
        pos = j + 1;
    }
    true
}

/// The big-endian 16-bit value stored at offset `i` of `s`.
pub open spec fn be16(s: Seq<u8>, i: int) -> int {
    s[i] * 256 + s[i + 1]
}

/// Position just past a length-prefixed label sequence starting at `i`:
/// labels are consumed until a zero length byte, which is consumed too.
/// `None` when a length byte or a label's bytes run past the end of `s`.
pub open spec fn skip_name(s: Seq<u8>, i: int) -> Option<int>
    decreases s.len() - i,
{
    if i < 0 || i >= s.len() {
        None
    } else if s[i] == 0 {
        Some(i + 1)
    } else if i + 1 + s[i] > s.len() {
        None
    } else {
        skip_name(s, i + 1 + s[i])
    }
}

/// Position just past `n` question entries starting at `i`: each is a name
/// followed by a 4-byte query type and class. `None` on a read past the end.
pub open spec fn skip_questions(s: Seq<u8>, i: int, n: int) -> Option<int>
    decreases n,
{
    if n <= 0 {
        Some(i)
    } else {
        match skip_name(s, i) {
            None => None,
            Some(j) => if j + 4 > s.len() {
                None
            } else {
                skip_questions(s, j + 4, n - 1)
            },
        }
    }
}

/// What decoding a response buffer yields: the four address octets of the
/// first answer record, or the reason none is available. The header's
/// question count is trusted for skipping; an answer count of zero is a
/// definitive negative result; any read past the end of the buffer is a
/// format fault.
pub open spec fn decode_spec(s: Seq<u8>) -> Result<Ipv4Address, DnsClientError> {
    if s.len() < 12 {
        Err(DnsClientError::FormatError)
    } else {
        match skip_questions(s, 12, be16(s, 4)) {
            None => Err(DnsClientError::FormatError),
            Some(p) => if be16(s, 6) == 0 {
                Err(DnsClientError::UnknownHostname)
            } else if p + 16 <= s.len() {
                Ok(
                    Ipv4Address {
                        a: s[p + 12],
                        b: s[p + 13],
                        c: s[p + 14],
                        d: s[p + 15],
                    },
                )
            } else {
                Err(DnsClientError::FormatError)
            },
        }
    }
}

/// Walk the length-prefixed labels of a name, returning the position just
/// past the terminator, or a format fault on a read past the end.
fn skip_name_in(data: &[u8], start: usize) -> (r: Result<usize, DnsClientError>)
    requires
        start <= data@.len(),
    ensures
        match r {
            Ok(p) => skip_name(data@, start as int) == Some(p as int) && start < p <= data@.len(),
            Err(e) => e == DnsClientError::FormatError && skip_name(data@, start as int)
                is None,
        },
{
    let n = data.len();
    let mut pos = start;
    loop
        invariant
            start <= pos <= n,
            n == data@.len(),
            skip_name(data@, start as int) == skip_name(data@, pos as int),
        decreases n - pos,
    {
        if pos >= n {
            return Err(DnsClientError::FormatError);
        }
        let c = data[pos];
        if c == 0 {
            return Ok(pos + 1);
        }
        let l = c as usize;
        if l > n - pos - 1 {
            return Err(DnsClientError::FormatError);
        }
        pos = pos + 1 + l;
    }
}

/// Parse a response buffer: read the header, skip the echoed questions, and
/// return the IPv4 address carried by the first answer record. The answer's
/// name is taken to be a 2-byte compression pointer and is not inspected, nor
/// are its type, class, TTL or data length; exactly four data bytes are read.
pub fn decode(data: &[u8]) -> (r: Result<Ipv4Address, DnsClientError>)
    ensures
        r == decode_spec(data@),
{
    let n = data.len();
    if n < 12 {
        return Err(DnsClientError::FormatError);
    }
    let qd: u16 = (data[4] as u16) * 256 + (data[5] as u16);
    let an: u16 = (data[6] as u16) * 256 + (data[7] as u16);
    let mut pos: usize = 12;
    let mut q: u16 = 0;
    while q < qd
        invariant
            q <= qd,
            12 <= pos <= n,
            n == data@.len(),
            n >= 12,
            qd as int == be16(data@, 4),
            an as int == be16(data@, 6),
            skip_questions(data@, 12, qd as int) == skip_questions(
                data@,
                pos as int,
                qd as int - q as int,
            ),
        decreases qd - q,
    {
        let p = match skip_name_in(data, pos) {
            Ok(p) => p,
            Err(_) => {
                return Err(DnsClientError::FormatError);
            },
        };
        if n - p < 4 {
            return Err(DnsClientError::FormatError);
        }
        pos = p + 4;
        q += 1;
    }
    if an == 0 {
        return Err(DnsClientError::UnknownHostname);
    }
    if n - pos < 16 {
        return Err(DnsClientError::FormatError);
    }
    Ok(
        Ipv4Address {
            a: data[pos + 12],
            b: data[pos + 13],
            c: data[pos + 14],
            d: data[pos + 15],
        },
    )
}

/// A hostname whose labels all fit a length byte and none of which is empty.
pub open spec fn valid_hostname(h: Seq<u8>) -> bool {
    labels_fit(h) && !has_empty_label(h)
}

/// Skipping a name field lands exactly past its terminator: if the bytes of
/// `s` from `i` hold the encoded name of a valid hostname `h` followed by the
/// zero terminator, the skip ends just after that terminator.
pub proof fn lemma_name_round_trip(h: Seq<u8>, s: Seq<u8>, i: int)
    requires
        valid_hostname(h),
        0 <= i,
        i + name_bytes(h).len() + 1 <= s.len(),
        s.subrange(i, i + name_bytes(h).len()) == name_bytes(h),
        s[i + name_bytes(h).len()] == 0,
    ensures
        skip_name(s, i) == Some(i + name_bytes(h).len() + 1),
    decreases h.len(),
{
    lemma_first_sep_bounds(h);
    let f = first_sep(h);
    let nb = name_bytes(h);
    assert(s[i] == nb[0]) by {
        assert(s.subrange(i, i + nb.len())[0] == s[i]);
    }
    if f == h.len() {
        assert(nb == seq![h.len() as u8] + h);
        assert(h.len() >= 1);
        assert(h.len() <= 255);
        assert(s[i] == h.len() as u8);
        assert(s[i] != 0);
        assert forall|k: int| 0 <= k < h.len() implies s[i + 1 + k] == h[k] by {
            assert(s.subrange(i, i + nb.len())[1 + k] == s[i + 1 + k]);
        }
        assert(i + 1 + s[i] == i + nb.len());
        assert(s[i + nb.len()] == 0);
        assert(skip_name(s, i + nb.len()) == Some(i + nb.len() + 1));
    } else {
        assert(0 < f < h.len());
        assert(f <= 255);
        let h2 = h.skip(f + 1);
        let nb2 = name_bytes(h2);
        assert(nb == seq![f as u8] + h.take(f) + nb2);
        assert(s[i] == f as u8);
        assert(s[i] != 0);
        let i2 = i + 1 + f;
        assert(i2 + nb2.len() == i + nb.len());
        assert(s.subrange(i2, i2 + nb2.len()) =~= nb2) by {
            assert forall|k: int| 0 <= k < nb2.len() implies s.subrange(i2, i2 + nb2.len())[k]
                == nb2[k] by {
                assert(s.subrange(i, i + nb.len())[1 + f + k] == s[i2 + k]);
                assert(nb[1 + f + k] == nb2[k]);
            }
        }
        lemma_name_round_trip(h2, s, i2);
        assert(i + 1 + s[i] == i2);
        assert(skip_name(s, i) == skip_name(s, i2));
    }
}

/// Round trip of the question section: for a valid hostname, skipping the
/// one question of the query that `encode` builds lands exactly at the end
/// of the message, i.e. at the position just past the question section.
pub proof fn lemma_question_round_trip(h: Seq<u8>)
    requires
        valid_hostname(h),
    ensures
        skip_questions(query_bytes(h), 12, 1) == Some(query_bytes(h).len() as int),
{
    let qb = query_bytes(h);
    let nb = name_bytes(h);
    assert(qb.len() == 12 + nb.len() + 5);
    assert(qb.subrange(12, 12 + nb.len() as int) =~= nb) by {
        assert forall|k: int| 0 <= k < nb.len() implies qb.subrange(12, 12 + nb.len() as int)[k]
            == nb[k] by {
            assert(qb[12 + k] == nb[k]);
        }
    }
    assert(qb[12 + nb.len() as int] == 0);
    lemma_name_round_trip(h, qb, 12);
    let j = 13 + nb.len() as int;
    assert(j + 4 == qb.len());
    assert(skip_questions(qb, j + 4, 0) == Some(qb.len() as int));
}

/// Decoding the query that `encode` itself builds reports an unknown
/// hostname: the question section skips cleanly and the answer count is zero.
pub proof fn lemma_decode_of_query(h: Seq<u8>)
    requires
        valid_hostname(h),
    ensures
        decode_spec(query_bytes(h)) == Err::<Ipv4Address, DnsClientError>(
            DnsClientError::UnknownHostname,
        ),
{
    let qb = query_bytes(h);
    assert(qb[4] == 0 && qb[5] == 1 && qb[6] == 0 && qb[7] == 0) by {
        assert(header_bytes()[4] == 0 && header_bytes()[5] == 1 && header_bytes()[6] == 0
            && header_bytes()[7] == 0);
    }
    assert(be16(qb, 4) == 1);
    assert(be16(qb, 6) == 0);
    lemma_question_round_trip(h);
}

/// A buffer holding a zero answer count after a question section that skips
/// cleanly decodes to `UnknownHostname`, whatever its question count — for a
/// question count of zero, no question is skipped at all.
pub proof fn lemma_no_answers(s: Seq<u8>)
    requires
        s.len() >= 12,
        be16(s, 6) == 0,
        skip_questions(s, 12, be16(s, 4)) is Some,
    ensures
        decode_spec(s) == Err::<Ipv4Address, DnsClientError>(DnsClientError::UnknownHostname),
{
}

/// A buffer shorter than the 12-byte header decodes to a format fault,
/// never to an address.
pub proof fn lemma_short_header(s: Seq<u8>)
    requires
        s.len() < 12,
    ensures
        decode_spec(s) == Err::<Ipv4Address, DnsClientError>(DnsClientError::FormatError),
{
}

/// Encoding is deterministic: any two buffers that `encode` returns for the
/// same hostname are byte-identical — there is no hidden state such as an
/// advancing identification counter.
pub proof fn lemma_encode_deterministic(h: Seq<u8>, out1: Seq<u8>, out2: Seq<u8>)
    requires
        out1 == query_bytes(h),
        out2 == query_bytes(h),
    ensures
        out1 == out2,
{
}

/// A hostname with an empty label is not rejected: its encoded name carries a
/// zero length byte strictly before the name terminator, which sits at offset
/// `12 + name_bytes(h).len()` of the query.
pub proof fn lemma_empty_label_zero_byte(h: Seq<u8>)
    requires
        has_empty_label(h),
    ensures
        exists|i: int|
            12 <= i < 12 + name_bytes(h).len() && query_bytes(h)[i] == 0,
    decreases h.len(),
{
    lemma_first_sep_bounds(h);
    let f = first_sep(h);
    let nb = name_bytes(h);
    let qb = query_bytes(h);
    if f == h.len() {
        assert(h.len() == 0);
        assert(nb == seq![0u8] + h);
        assert(qb[12] == nb[0]);
        assert(qb[12] == 0);
    } else if f == 0 {
        assert(nb[0] == 0);
        assert(qb[12] == nb[0]);
    } else {
        let h2 = h.skip(f + 1);
        lemma_empty_label_zero_byte(h2);
        let nb2 = name_bytes(h2);
        let j = choose|j: int| 12 <= j < 12 + nb2.len() && query_bytes(h2)[j] == 0;
        assert(query_bytes(h2)[j] == nb2[j - 12]);
        assert(nb == seq![f as u8] + h.take(f) + nb2);
        assert(nb[1 + f + j - 12] == nb2[j - 12]);
        assert(qb[12 + 1 + f + j - 12] == nb[1 + f + j - 12]);
        assert(12 <= 1 + f + j < 12 + nb.len() && qb[1 + f + j] == 0);
    }
}

} // verus!
