//! A simplified DNS codec: encoding an A-record query for a domain, and
//! parsing the answers out of a response, assuming compressed names and
//! four-byte record data.

use vstd::prelude::*;

verus! {

/// Errors of the DNS codec.
#[derive(Clone, Copy, PartialEq, Eq, Structural, Debug)]
pub enum DnsError {
    /// A dot-separated label of the domain is longer than 255 bytes.
    LabelTooLong,
    /// The response buffer is too short for what its header announces.
    NotEnoughBytes,
}

/// Index of the first `.` in `d`, or `d.len()` when there is none.
pub open spec fn find_dot(d: Seq<u8>) -> int
    decreases d.len(),
{
    if d.len() == 0 {
        0
    } else if d[0] == 0x2e {
        0
    } else {
        1 + find_dot(d.drop_first())
    }
}

/// Whether each dot-separated label of `d` fits in a length byte.
pub open spec fn labels_fit(d: Seq<u8>) -> bool
    decreases d.len(),
{
    let i = find_dot(d);
    if 0 <= i < d.len() {
        i <= 255 && labels_fit(d.skip(i + 1))
    } else {
        d.len() <= 255
    }
}

/// The QNAME wire form of domain `d`: each label as a length byte
/// followed by its bytes (meaningful when `labels_fit(d)`).
pub open spec fn qname_bytes(d: Seq<u8>) -> Seq<u8>
    decreases d.len(),
{
    let i = find_dot(d);
    if 0 <= i < d.len() {
        seq![i as u8] + d.take(i) + qname_bytes(d.skip(i + 1))
    } else {
        seq![d.len() as u8] + d
    }
}

/// The fixed query header: an arbitrary ID, recursion desired, and one
/// question.
pub open spec fn header_bytes() -> Seq<u8> {
    seq![5u8, 57u8, 1u8, 0u8, 0u8, 1u8, 0u8, 0u8, 0u8, 0u8, 0u8, 0u8]
}

/// The question section: the QNAME, its terminating zero label, then
/// question type A and class IN.
pub open spec fn question_bytes(d: Seq<u8>) -> Seq<u8> {
    qname_bytes(d) + seq![0u8, 0u8, 1u8, 0u8, 1u8]
}

/// A whole query: the header followed by the question.
pub open spec fn query_bytes(d: Seq<u8>) -> Seq<u8> {
    header_bytes() + question_bytes(d)
}

/// The big-endian 16-bit value at offset `i` of `s`.
pub open spec fn be16(s: Seq<u8>, i: int) -> nat {
    (256 * s[i] + s[i + 1]) as nat
}

/// The big-endian 32-bit value at offset `i` of `s`.
pub open spec fn be32(s: Seq<u8>, i: int) -> nat {
    (16777216 * s[i] + 65536 * s[i + 1] + 256 * s[i + 2] + s[i + 3]) as nat
}

/// `find_dot` is the unique position with no dot before it that either
/// holds a dot or ends the sequence.
proof fn lemma_find_dot_char(s: Seq<u8>, i: int)
    requires
        0 <= i <= s.len(),
        forall|k: int| 0 <= k < i ==> s[k] != 0x2e,
        i == s.len() || s[i] == 0x2e,
    ensures
        find_dot(s) == i,
    decreases i,
{
    if i == 0 {
    } else {
        assert(s[0] != 0x2e);
        lemma_find_dot_char(s.drop_first(), i - 1);
    }
}

/// A DNS query for the A record of a domain, held as the domain's bytes.
pub struct Query(pub Vec<u8>);

impl Query {
    /// The fixed 12-byte header: one question, recursion desired.
    pub fn encode_header() -> (r: Vec<u8>)
        ensures
            r@ == header_bytes(),
    {
        let r: Vec<u8> = vec![5u8, 57u8, 1u8, 0u8, 0u8, 1u8, 0u8, 0u8, 0u8, 0u8, 0u8, 0u8];
        proof {
            assert(r@ =~= header_bytes());
        }
        r
    }

    /// The question section for this domain, or an error when a label
    /// cannot fit its length byte.
    pub fn encode_question(&self) -> (r: Result<Vec<u8>, DnsError>)
        ensures
            labels_fit(self.0@) ==> (r matches Ok(v) && v@ == question_bytes(self.0@)),
            !labels_fit(self.0@) ==> r == Err::<Vec<u8>, DnsError>(DnsError::LabelTooLong),
    {
        let d = &self.0;
        let n = d.len();
        let mut out: Vec<u8> = Vec::new();
        let mut start: usize = 0;
        proof {
            assert(d@.skip(0) =~= d@);
            assert(out@ + qname_bytes(d@) =~= qname_bytes(d@));
        }
        loop
            invariant_except_break
                labels_fit(d@) ==> qname_bytes(d@) == out@ + qname_bytes(d@.skip(start as int)),
            invariant
                start <= n,
                n == d@.len(),
                d@ == self.0@,
                labels_fit(d@) <==> labels_fit(d@.skip(start as int)),
            ensures
                labels_fit(d@),
                out@ == qname_bytes(d@),
            decreases n - start,
        {
            let ghost suffix = d@.skip(start as int);
            let ghost out_head = out@;
            let mut j: usize = start;
            while j < n && d[j] != 0x2e
                invariant
                    start <= j <= n,
                    n == d@.len(),
                    forall|k: int| start <= k < j ==> d@[k] != 0x2e,
                decreases n - j,
            {
                j = j + 1;
            }
            proof {
                assert(forall|k: int| 0 <= k < j - start ==> suffix[k] == d@[start + k]);
                assert(j < n ==> suffix[j - start] == d@[j as int]);
                lemma_find_dot_char(suffix, j - start);
            }
            let label_len = j - start;
            if label_len > 255 {
                proof {
                    assert(!labels_fit(suffix));
                }
                return Err(DnsError::LabelTooLong);
            }
            out.push(label_len as u8);
            let mut k: usize = start;
            let ghost out_mid = out@;
            while k < j
                invariant
                    start <= k <= j <= n,
                    n == d@.len(),
                    out@ == out_mid + d@.subrange(start as int, k as int),
                decreases j - k,
            {
                let b = d[k];
                out.push(b);
                proof {
                    assert(out@ =~= out_mid + d@.subrange(start as int, k + 1));
                }
                k = k + 1;
            }
            proof {
                assert(out_mid =~= out_head + seq![label_len as u8]);
                assert(out@ =~= out_head + seq![label_len as u8] + d@.subrange(
                    start as int,
                    j as int,
                ));
            }
            if j == n {
                proof {
                    assert(find_dot(suffix) == suffix.len());
                    assert(qname_bytes(suffix) == seq![suffix.len() as u8] + suffix);
                    assert(labels_fit(suffix) <==> suffix.len() <= 255);
                    assert(d@.subrange(start as int, n as int) =~= suffix);
                    assert(suffix.len() == label_len);
                    assert(out@ =~= out_head + (seq![label_len as u8] + suffix));
                    assert(labels_fit(suffix));
                    assert(labels_fit(d@));
                    assert(qname_bytes(d@) =~= out@);
                }
                break ;
            }
            proof {
                let i = find_dot(suffix);
                assert(i == j - start);
                assert(0 <= i < suffix.len());
                assert(qname_bytes(suffix) == seq![i as u8] + suffix.take(i) + qname_bytes(
                    suffix.skip(i + 1),
                ));
                assert(labels_fit(suffix) <==> (i <= 255 && labels_fit(suffix.skip(i + 1))));
                assert(suffix.take(i) =~= d@.subrange(start as int, j as int));
                assert(suffix.skip(i + 1) =~= d@.skip(j + 1));
                assert(seq![label_len as u8] =~= seq![i as u8]);
                if labels_fit(d@) {
                    assert(out@ + qname_bytes(d@.skip(j + 1)) =~= out_head + qname_bytes(suffix));
                }
            }
            start = j + 1;
        }
        out.push(0);
        out.push(0);
        out.push(1);
        out.push(0);
        out.push(1);
        proof {
            assert(out@ =~= question_bytes(d@));
        }
        Ok(out)
    }

    /// A whole query for this domain: header then question.
    pub fn encode(&self) -> (r: Result<Vec<u8>, DnsError>)
        ensures
            labels_fit(self.0@) ==> (r matches Ok(v) && v@ == query_bytes(self.0@)),
            !labels_fit(self.0@) ==> r == Err::<Vec<u8>, DnsError>(DnsError::LabelTooLong),
    {
        let mut out = Self::encode_header();
        let mut question = match self.encode_question() {
            Ok(q) => q,
            Err(e) => {
                return Err(e);
            },
        };
        out.append(&mut question);
        proof {
            if labels_fit(self.0@) {
                assert(out@ =~= query_bytes(self.0@));
            }
        }
        Ok(out)
    }
}

/// One parsed answer record: its type, class, time-to-live, and the
/// four address bytes of its data.
#[derive(Clone, Copy, PartialEq, Eq, Debug)]
pub struct Answer {
    pub rtype: u16,
    pub class: u16,
    pub ttl: u32,
    pub address: [u8; 4],
}

/// Whether `a` holds the fields encoded in the 16-byte record `s`: the
/// name is assumed compressed to two bytes and the data to be four.
pub open spec fn answer_matches(a: Answer, s: Seq<u8>) -> bool {
    &&& a.rtype as nat == be16(s, 2)
    &&& a.class as nat == be16(s, 4)
    &&& a.ttl as nat == be32(s, 6)
    &&& a.address@ == seq![s[12], s[13], s[14], s[15]]
}

impl Answer {
    /// Parse one answer record out of `value`; rejects buffers shorter
    /// than the 16 bytes such a record spans.
    pub fn try_from(value: &[u8]) -> (r: Result<Answer, DnsError>)
        ensures
            value@.len() < 16 ==> r == Err::<Answer, DnsError>(DnsError::NotEnoughBytes),
            value@.len() >= 16 ==> (r matches Ok(a) && answer_matches(a, value@)),
    {
        if value.len() < 16 {
            return Err(DnsError::NotEnoughBytes);
        }
        let rtype = 256 * (value[2] as u16) + (value[3] as u16);
        let class = 256 * (value[4] as u16) + (value[5] as u16);
        let ttl = 16777216 * (value[6] as u32) + 65536 * (value[7] as u32) + 256 * (
        value[8] as u32) + (value[9] as u32);
        let address = [value[12], value[13], value[14], value[15]];
        let a = Answer { rtype, class, ttl, address };
        proof {
            assert(a.address@ =~= seq![value@[12], value@[13], value@[14], value@[15]]);
        }
        Ok(a)
    }
}

/// The answer count a response's header announces.
pub open spec fn answer_count(s: Seq<u8>) -> nat {
    be16(s, 6)
}

/// Whether a response buffer is long enough for its header and for the
/// answers its header announces.
pub open spec fn answers_sized(s: Seq<u8>) -> bool {
    s.len() >= 8 && 16 * answer_count(s) <= s.len()
}

/// The byte position where the answer records begin: they sit at the
/// very end of the response.
pub open spec fn answers_start(s: Seq<u8>) -> int {
    s.len() - 16 * answer_count(s)
}

/// The answers parsed from a whole DNS response.
#[derive(PartialEq, Eq, Debug)]
pub struct Answers(pub Vec<Answer>);

impl Answers {
    /// Parse every announced answer record out of a whole response,
    /// assuming fixed-size records at its end; rejects responses shorter
    /// than the count in their header calls for.
    pub fn try_from(value: &[u8]) -> (r: Result<Answers, DnsError>)
        ensures
            !answers_sized(value@) ==> r == Err::<Answers, DnsError>(DnsError::NotEnoughBytes),
            answers_sized(value@) ==> (r matches Ok(ans) && ans.0@.len() == answer_count(value@)
                && forall|q: int|
                0 <= q < ans.0@.len() ==> answer_matches(
                    #[trigger] ans.0@[q],
                    value@.subrange(answers_start(value@) + 16 * q, answers_start(value@) + 16 * q
                        + 16),
                )),
    {
        let n = value.len();
        if n < 8 {
            return Err(DnsError::NotEnoughBytes);
        }
        let num_answers = (256 * (value[6] as usize) + (value[7] as usize));
        let total = 16 * num_answers;
        if total > n {
            return Err(DnsError::NotEnoughBytes);
        }
        let answer_base = n - total;
        let mut parsed: Vec<Answer> = Vec::new();
        let mut q: usize = 0;
        while q < num_answers
            invariant
                q <= num_answers,
                16 * num_answers <= n,
                n == value@.len(),
                num_answers == answer_count(value@),
                answer_base == answers_start(value@),
                parsed@.len() == q,
                forall|t: int|
                    0 <= t < q ==> answer_matches(
                        #[trigger] parsed@[t],
                        value@.subrange(answer_base + 16 * t, answer_base + 16 * t + 16),
                    ),
            decreases num_answers - q,
        {
            proof {
                assert(16 * (q + 1) <= 16 * num_answers) by (nonlinear_arith)
                    requires
                        q + 1 <= num_answers,
                ;
            }
            let start = answer_base + 16 * q;
            let record = &value[start..start + 16];
            let a = match Answer::try_from(record) {
                Ok(a) => a,
                Err(e) => {
                    return Err(e);
                },
            };
            parsed.push(a);
            q = q + 1;
        }
        Ok(Answers(parsed))
    }
}

/// The character for decimal digit `d`.
pub open spec fn digit_char(d: nat) -> char {
    if d == 0 {
        '0'
    } else if d == 1 {
        '1'
    } else if d == 2 {
        '2'
    } else if d == 3 {
        '3'
    } else if d == 4 {
        '4'
    } else if d == 5 {
        '5'
    } else if d == 6 {
        '6'
    } else if d == 7 {
        '7'
    } else if d == 8 {
        '8'
    } else {
        '9'
    }
}

/// The decimal digits of `n`, most significant first, no leading zeros
/// (just "0" for zero).
pub open spec fn dec_chars(n: nat) -> Seq<char>
    decreases n,
{
    if n < 10 {
        seq![digit_char(n)]
    } else {
        dec_chars(n / 10) + seq![digit_char(n % 10)]
    }
}

/// The display form of an answer: the four address bytes dotted, then
/// the time-to-live.
pub open spec fn answer_display(a: Answer) -> Seq<char> {
    dec_chars(a.address@[0] as nat) + seq!['.'] + dec_chars(a.address@[1] as nat) + seq!['.']
        + dec_chars(a.address@[2] as nat) + seq!['.'] + dec_chars(a.address@[3] as nat) + seq![
        ' ',
        '(',
        'T',
        'T',
        'L',
        ' ',
        '=',
        ' ',
    ] + dec_chars(a.ttl as nat) + seq![')']
}

fn digit_str(d: u32) -> (r: &'static str)
    requires
        d < 10,
    ensures
        r@ == seq![digit_char(d as nat)],
{
    proof {
        reveal_strlit("0");
        reveal_strlit("1");
        reveal_strlit("2");
        reveal_strlit("3");
        reveal_strlit("4");
        reveal_strlit("5");
        reveal_strlit("6");
        reveal_strlit("7");
        reveal_strlit("8");
        reveal_strlit("9");
    }
    let r = match d {
        0 => "0",
        1 => "1",
        2 => "2",
        3 => "3",
        4 => "4",
        5 => "5",
        6 => "6",
        7 => "7",
        8 => "8",
        _ => "9",
    };
    proof {
        assert(r@ =~= seq![digit_char(d as nat)]);
    }
    r
}

/// Append the decimal form of `n` to `s`.
fn push_u32_dec(s: &mut String, n: u32)
    ensures
        final(s)@ == old(s)@ + dec_chars(n as nat),
    decreases n,
{
    if n >= 10 {
        push_u32_dec(s, n / 10);
        s.append(digit_str(n % 10));
        proof {
            assert(final(s)@ =~= old(s)@ + dec_chars(n as nat));
        }
    } else {
        s.append(digit_str(n));
        proof {
            assert(final(s)@ =~= old(s)@ + dec_chars(n as nat));
        }
    }
}

impl Answer {
    /// The answer as text: the address bytes dotted, then the
    /// time-to-live in parentheses.
    pub fn display_string(&self) -> (r: String)
        ensures
            r@ == answer_display(*self),
    {
        let mut s = String::new();
        push_u32_dec(&mut s, self.address[0] as u32);
        s.append(".");
        push_u32_dec(&mut s, self.address[1] as u32);
        s.append(".");
        push_u32_dec(&mut s, self.address[2] as u32);
        s.append(".");
        push_u32_dec(&mut s, self.address[3] as u32);
        s.append(" (TTL = ");
        push_u32_dec(&mut s, self.ttl);
        s.append(")");
        proof {
            reveal_strlit(".");
            reveal_strlit(" (TTL = ");
            reveal_strlit(")");
            assert("."@ =~= seq!['.']);
            assert(" (TTL = "@ =~= seq![' ', '(', 'T', 'T', 'L', ' ', '=', ' ']);
            assert(")"@ =~= seq![')']);
            assert(s@ =~= answer_display(*self));
        }
        s
    }
}

} // verus!
