//! The core of a header-echoing HTTP server: parse the header lines of a
//! request head into key/value pairs, and render them as a pretty-printed
//! JSON object for the response body.

use vstd::prelude::*;

verus! {

/// Index of the first newline in `s`, or `s.len()` when there is none.
pub open spec fn find_nl(s: Seq<u8>) -> int
    decreases s.len(),
{
    if s.len() == 0 {
        0
    } else if s[0] == 10 {
        0
    } else {
        1 + find_nl(s.drop_first())
    }
}

/// A line with its trailing carriage return removed, if it has one.
pub open spec fn strip_cr(l: Seq<u8>) -> Seq<u8> {
    if l.len() > 0 && l.last() == 13 {
        l.drop_last()
    } else {
        l
    }
}

/// Index of the first `": "` in `l`, or at least `l.len() - 1` when
/// there is none.
pub open spec fn find_sep(l: Seq<u8>) -> int
    decreases l.len(),
{
    if l.len() == 0 {
        0
    } else if l.len() >= 2 && l[0] == 58 && l[1] == 32 {
        0
    } else {
        1 + find_sep(l.drop_first())
    }
}

/// The key/value pair of one header line: what stands before and after
/// its first `": "`, or `None` for a line without one.
pub open spec fn pair_of(l: Seq<u8>) -> Option<(Seq<u8>, Seq<u8>)> {
    let i = find_sep(l);
    if i + 2 <= l.len() {
        Some((l.take(i), l.skip(i + 2)))
    } else {
        None
    }
}

/// The header pairs of a request head: one line at a time up to the
/// first empty line (or the end), keeping only lines that hold `": "`.
pub open spec fn header_pairs(s: Seq<u8>) -> Seq<(Seq<u8>, Seq<u8>)>
    decreases s.len(),
{
    let i = find_nl(s);
    if 0 <= i < s.len() {
        let line = strip_cr(s.take(i));
        if line.len() == 0 {
            Seq::empty()
        } else {
            match pair_of(line) {
                Some(p) => seq![p] + header_pairs(s.skip(i + 1)),
                None => header_pairs(s.skip(i + 1)),
            }
        }
    } else {
        let line = strip_cr(s);
        if line.len() == 0 {
            Seq::empty()
        } else {
            match pair_of(line) {
                Some(p) => seq![p],
                None => Seq::empty(),
            }
        }
    }
}

/// The view of a parsed pair list.
pub open spec fn pairs_view(ps: Seq<(Vec<u8>, Vec<u8>)>) -> Seq<(Seq<u8>, Seq<u8>)> {
    ps.map_values(|p: (Vec<u8>, Vec<u8>)| (p.0@, p.1@))
}

proof fn lemma_find_nl_char(s: Seq<u8>, i: int)
    requires
        0 <= i <= s.len(),
        forall|k: int| 0 <= k < i ==> s[k] != 10,
        i == s.len() || s[i] == 10,
    ensures
        find_nl(s) == i,
    decreases i,
{
    if i == 0 {
    } else {
        lemma_find_nl_char(s.drop_first(), i - 1);
    }
}

proof fn lemma_find_sep_char(s: Seq<u8>, i: int)
    requires
        0 <= i,
        i + 1 < s.len(),
        forall|k: int| 0 <= k < i ==> !(#[trigger] s[k] == 58 && s[k + 1] == 32),
        s[i] == 58 && s[i + 1] == 32,
    ensures
        find_sep(s) == i,
    decreases i,
{
    if i == 0 {
    } else {
        assert(!(s[0] == 58 && s[1] == 32));
        lemma_find_sep_char(s.drop_first(), i - 1);
    }
}

proof fn lemma_find_sep_none(s: Seq<u8>)
    requires
        forall|k: int| 0 <= k && k + 1 < s.len() ==> !(#[trigger] s[k] == 58 && s[k + 1] == 32),
    ensures
        find_sep(s) + 2 > s.len(),
    decreases s.len(),
{
    if s.len() == 0 {
    } else {
        assert(forall|k: int|
            0 <= k && k + 1 < s.drop_first().len() ==> !(#[trigger] s.drop_first()[k] == 58
                && s.drop_first()[k + 1] == 32));
        lemma_find_sep_none(s.drop_first());
    }
}

/// Split one header line at its first `": "`.
fn split_pair(line: &[u8]) -> (r: Option<(Vec<u8>, Vec<u8>)>)
    ensures
        match r {
            Some(p) => pair_of(line@) == Some((p.0@, p.1@)),
            None => pair_of(line@) is None,
        },
{
    let n = line.len();
    let mut i: usize = 0;
    while i < n && i + 1 < n && !(line[i] == 58 && line[i + 1] == 32)
        invariant
            0 <= i,
            i <= n,
            n == line@.len(),
            forall|k: int| 0 <= k < i ==> !(#[trigger] line@[k] == 58 && line@[k + 1] == 32),
        decreases n - i,
    {
        i = i + 1;
    }
    if i >= n || i + 1 >= n {
        proof {
            lemma_find_sep_none(line@);
        }
        return None;
    }
    proof {
        lemma_find_sep_char(line@, i as int);
    }
    let mut key: Vec<u8> = Vec::new();
    let mut k: usize = 0;
    while k < i
        invariant
            k <= i < n,
            n == line@.len(),
            key@ == line@.take(i as int).take(k as int),
        decreases i - k,
    {
        key.push(line[k]);
        proof {
            assert(key@ =~= line@.take(i as int).take(k + 1));
        }
        k = k + 1;
    }
    let mut value: Vec<u8> = Vec::new();
    let mut v: usize = i + 2;
    while v < n
        invariant
            i + 2 <= v <= n,
            n == line@.len(),
            value@ == line@.skip(i + 2).take(v - i - 2),
        decreases n - v,
    {
        value.push(line[v]);
        proof {
            assert(value@ =~= line@.skip(i + 2).take(v + 1 - i - 2));
        }
        v = v + 1;
    }
    proof {
        assert(key@ =~= line@.take(i as int));
        assert(value@ =~= line@.skip(i + 2));
    }
    Some((key, value))
}

/// Parse the header lines of a request head: one line at a time up to
/// the first empty line, keeping the lines that hold `": "`, split at
/// its first occurrence, in order.
pub fn parse_headers(data: &[u8]) -> (r: Vec<(Vec<u8>, Vec<u8>)>)
    ensures
        pairs_view(r@) == header_pairs(data@),
{
    let n = data.len();
    let mut out: Vec<(Vec<u8>, Vec<u8>)> = Vec::new();
    let mut pos: usize = 0;
    proof {
        assert(data@.skip(0) =~= data@);
        assert(pairs_view(out@) =~= Seq::empty());
        assert(Seq::<(Seq<u8>, Seq<u8>)>::empty() + header_pairs(data@) =~= header_pairs(data@));
    }
    loop
        invariant_except_break
            header_pairs(data@) == pairs_view(out@) + header_pairs(data@.skip(pos as int)),
        invariant
            pos <= n,
            n == data@.len(),
        ensures
            pairs_view(out@) == header_pairs(data@),
        decreases n - pos,
    {
        let ghost suffix = data@.skip(pos as int);
        let ghost out_head = out@;
        if pos == n {
            proof {
                assert(suffix.len() == 0);
                assert(strip_cr(suffix).len() == 0);
                assert(header_pairs(suffix) =~= Seq::empty());
                assert(pairs_view(out@) + header_pairs(suffix) =~= pairs_view(out@));
            }
            break ;
        }
        let mut j: usize = pos;
        while j < n && data[j] != 10
            invariant
                pos <= j <= n,
                n == data@.len(),
                forall|k: int| pos <= k < j ==> data@[k] != 10,
            decreases n - j,
        {
            j = j + 1;
        }
        proof {
            assert(forall|k: int| 0 <= k < j - pos ==> suffix[k] == data@[pos + k]);
            assert(j < n ==> suffix[j - pos] == data@[j as int]);
            lemma_find_nl_char(suffix, j - pos);
        }
        // the line, with a trailing carriage return dropped
        let mut line_end = j;
        if line_end > pos && data[line_end - 1] == 13 {
            line_end = line_end - 1;
        }
        let line = &data[pos..line_end];
        proof {
            assert(suffix.take(j - pos) =~= data@.subrange(pos as int, j as int));
            assert(line@ =~= strip_cr(suffix.take(j - pos)));
        }
        if line.len() == 0 {
            proof {
                assert(header_pairs(suffix) =~= Seq::empty());
                assert(pairs_view(out@) + header_pairs(suffix) =~= pairs_view(out@));
            }
            break ;
        }
        let ghost tail_spec = if j < n {
            header_pairs(data@.skip(j + 1))
        } else {
            Seq::<(Seq<u8>, Seq<u8>)>::empty()
        };
        proof {
            if j < n {
                assert(suffix.skip(j - pos + 1) =~= data@.skip(j + 1));
            } else {
                assert(suffix.take(j - pos) =~= suffix);
            }
            assert(header_pairs(suffix) == match pair_of(line@) {
                Some(p) => seq![p] + tail_spec,
                None => tail_spec,
            });
        }
        match split_pair(line) {
            Some(p) => {
                out.push(p);
                proof {
                    assert(pairs_view(out@) =~= pairs_view(out_head) + seq![(p.0@, p.1@)]);
                    assert(pairs_view(out_head) + header_pairs(suffix) =~= pairs_view(out@)
                        + tail_spec);
                }
            },
            None => {
                proof {
                    assert(pairs_view(out_head) + header_pairs(suffix) =~= pairs_view(out@)
                        + tail_spec);
                }
            },
        }
        if j == n {
            proof {
                assert(pairs_view(out@) + tail_spec =~= pairs_view(out@));
                assert(pairs_view(out@) =~= header_pairs(data@));
            }
            break ;
        }
        pos = j + 1;
    }
    out
}

/// The pretty-printed JSON object that a list of header pairs renders
/// to: keys sorted, a later duplicate key replacing an earlier one,
/// values as strings.
pub uninterp spec fn json_pretty_of(pairs: Seq<(Seq<u8>, Seq<u8>)>) -> Seq<char>;

/// Relies on serde_json::to_string_pretty over serde_json::Map (backed
/// by a sorted map with string keys): the output is a function of the
/// pairs alone, and serializing a map of strings cannot fail.
#[verifier::external_body]
fn headers_json(pairs: &Vec<(Vec<u8>, Vec<u8>)>) -> (r: String)
    ensures
        r@ == json_pretty_of(pairs_view(pairs@)),
{
    let map: serde_json::Map<String, serde_json::Value> = pairs
        .iter()
        .map(
            |(k, v)| (
                String::from_utf8_lossy(k).into_owned(),
                serde_json::Value::String(String::from_utf8_lossy(v).into_owned()),
            ),
        )
        .collect();
    serde_json::to_string_pretty(&map).unwrap_or_default()
}

/// The fixed head of every response: the status line, and the blank
/// line that ends the (empty) header section.
pub fn response_head() -> (r: &'static str)
    ensures
        r@ == "HTTP/1.1 200 OK\r\n\r\n"@,
{
    "HTTP/1.1 200 OK\r\n\r\n"
}

/// The body of the response to one request head: its header lines,
/// parsed up to the first empty line, as a pretty-printed JSON object.
pub fn header_response_body(data: &[u8]) -> (r: String)
    ensures
        r@ == json_pretty_of(header_pairs(data@)),
{
    let pairs = parse_headers(data);
    headers_json(&pairs)
}

} // verus!
