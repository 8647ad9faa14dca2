//! The persisted layout of a session: a JSON-encoded ordered array of
//! `{"peer_id":...,"offer":{"type":...,"sdp":...}}` records, one stored
//! value per session. Encoding is canonical (no whitespace, quotes and
//! backslashes escaped); decoding accepts exactly the canonical form and
//! reports anything else as a decode failure.

use vstd::prelude::*;
use vstd::string::*;

use crate::session::Offer;
use crate::session::Peer;
use crate::session::PeerView;
use crate::session::Session;
use crate::session::SessionError;

verus! {

/// How one character appears inside a quoted string: quotes and backslashes
/// are escaped with a backslash, every other character stands as itself.
pub open spec fn esc_char(c: char) -> Seq<char> {
    if c == '"' || c == '\\' {
        seq!['\\', c]
    } else {
        seq![c]
    }
}

/// The escaped body of a quoted string.
pub open spec fn esc(s: Seq<char>) -> Seq<char>
    decreases s.len(),
{
    if s.len() == 0 {
        Seq::empty()
    } else {
        esc_char(s[0]) + esc(s.drop_first())
    }
}

/// A string value: escaped body between double quotes.
pub open spec fn quoted(s: Seq<char>) -> Seq<char> {
    seq!['"'] + esc(s) + seq!['"']
}

/// The opening of a peer record, up to the peer id value.
pub open spec fn peer_id_label() -> Seq<char> {
    seq!['{', '"', 'p', 'e', 'e', 'r', '_', 'i', 'd', '"', ':']
}

/// The middle of a peer record, between the peer id and the offer type.
pub open spec fn offer_label() -> Seq<char> {
    seq![',', '"', 'o', 'f', 'f', 'e', 'r', '"', ':', '{', '"', 't', 'y', 'p', 'e', '"', ':']
}

/// The part of a peer record between the offer type and the sdp value.
pub open spec fn sdp_label() -> Seq<char> {
    seq![',', '"', 's', 'd', 'p', '"', ':']
}

/// The closing braces of a peer record.
pub open spec fn peer_close() -> Seq<char> {
    seq!['}', '}']
}

/// The encoding of one peer record.
pub open spec fn enc_peer(p: PeerView) -> Seq<char> {
    peer_id_label() + quoted(p.peer_id) + offer_label() + quoted(p.offer.offer_type)
        + sdp_label() + quoted(p.offer.sdp) + peer_close()
}

/// The encodings of a list of peers, comma-separated.
pub open spec fn enc_peers(ps: Seq<PeerView>) -> Seq<char>
    decreases ps.len(),
{
    if ps.len() == 0 {
        Seq::empty()
    } else if ps.len() == 1 {
        enc_peer(ps[0])
    } else {
        enc_peer(ps[0]) + seq![','] + enc_peers(ps.drop_first())
    }
}

/// The encoding of a whole session: its peers between square brackets.
pub open spec fn enc_session(ps: Seq<PeerView>) -> Seq<char> {
    seq!['['] + enc_peers(ps) + seq![']']
}

/// Escaping distributes over appending one character.
proof fn lemma_esc_snoc(s: Seq<char>, c: char)
    ensures
        esc(s.push(c)) == esc(s) + esc_char(c),
    decreases s.len(),
{
    if s.len() == 0 {
        assert(s.push(c)[0] == c);
        assert(s.push(c).drop_first() =~= Seq::<char>::empty());
        assert(esc(s.push(c)) == esc_char(c) + esc(Seq::<char>::empty()));
        assert(esc(Seq::<char>::empty()) == Seq::<char>::empty());
        assert(esc(s.push(c)) =~= esc(s) + esc_char(c));
    } else {
        assert(s.push(c)[0] == s[0]);
        assert(s.push(c).drop_first() =~= s.drop_first().push(c));
        lemma_esc_snoc(s.drop_first(), c);
        assert(esc(s.push(c)) =~= esc(s) + esc_char(c));
    }
}

/// An escaped body never starts with an unescaped quote, and its first
/// character determines whether the first source character was escaped.
proof fn lemma_esc_head(s: Seq<char>)
    requires
        s.len() > 0,
    ensures
        esc(s).len() > 0,
        esc(s)[0] != '"',
        (s[0] == '"' || s[0] == '\\') ==> esc(s).len() >= 2 && esc(s)[0] == '\\' && esc(s)[1]
            == s[0],
        !(s[0] == '"' || s[0] == '\\') ==> esc(s)[0] == s[0],
{
    assert(esc(s) == esc_char(s[0]) + esc(s.drop_first()));
}

/// Appending one peer to a non-empty list appends a comma and its encoding;
/// to an empty list, just its encoding.
proof fn lemma_enc_peers_snoc(ps: Seq<PeerView>, p: PeerView)
    ensures
        ps.len() == 0 ==> enc_peers(ps.push(p)) == enc_peer(p),
        ps.len() > 0 ==> enc_peers(ps.push(p)) == enc_peers(ps) + seq![','] + enc_peer(p),
    decreases ps.len(),
{
    if ps.len() == 0 {
        assert(ps.push(p)[0] == p);
        assert(enc_peers(ps.push(p)) == enc_peer(p));
    } else if ps.len() == 1 {
        assert(ps.push(p).drop_first() =~= ps.drop_first().push(p));
        assert(ps.drop_first().push(p) =~= seq![p]);
        assert(enc_peers(seq![p]) == enc_peer(p));
        assert(enc_peers(ps.push(p)) =~= enc_peers(ps) + seq![','] + enc_peer(p));
    } else {
        assert(ps.push(p).drop_first() =~= ps.drop_first().push(p));
        lemma_enc_peers_snoc(ps.drop_first(), p);
        assert(enc_peers(ps.push(p)) =~= enc_peers(ps) + seq![','] + enc_peer(p));
    }
}

/// Relies on `String`'s `FromIterator<char>` implementation: collecting
/// characters yields the string of exactly those characters, in order.
#[verifier::external_body]
fn chars_to_string(v: &Vec<char>) -> (r: String)
    ensures
        r@ == v@,
{
    v.iter().collect()
}

/// A range of a sequence splits at any interior point.
proof fn lemma_subrange_split(s: Seq<char>, a: int, b: int, c: int)
    requires
        0 <= a <= b <= c <= s.len(),
    ensures
        s.subrange(a, c) == s.subrange(a, b) + s.subrange(b, c),
{
    assert(s.subrange(a, c) =~= s.subrange(a, b) + s.subrange(b, c));
}

/// If a quoted string sits at `pos..j`, the input from just after the
/// opening quote onward is an escaped body, a closing quote, and the rest.
proof fn lemma_quoted_split(s: Seq<char>, pos: int, j: int, n: int, w: Seq<char>)
    requires
        n == s.len(),
        0 <= pos <= j <= n,
        s.subrange(pos, j) == quoted(w),
    ensures
        pos + 2 <= j,
        s[pos] == '"',
        esc(w) + seq!['"'] + s.subrange(j, n) == s.subrange(pos + 1, n),
{
    let q = quoted(w);
    assert(q.len() == 2 + esc(w).len());
    assert(j - pos == q.len());
    assert(s.subrange(pos, j)[0] == s[pos]);
    assert(q[0] == '"');
    let full = esc(w) + seq!['"'] + s.subrange(j, n);
    assert(full.len() == n - pos - 1);
    assert forall|t: int| 0 <= t < n - pos - 1 implies s.subrange(pos + 1, n)[t] == full[t] by {
        assert(s.subrange(pos + 1, n)[t] == s[pos + 1 + t]);
        if t < j - pos - 1 {
            assert(s[pos + 1 + t] == s.subrange(pos, j)[t + 1]);
            assert(q[t + 1] == full[t]);
        } else {
            assert(s[pos + 1 + t] == s.subrange(j, n)[t - (j - pos - 1)]);
            assert(full[t] == s.subrange(j, n)[t - (j - pos - 1)]);
        }
    }
    assert(full =~= s.subrange(pos + 1, n));
}

/// If a quoted-string tail `esc(w) + '"' + r` extends a consumed escaped
/// prefix `esc(acc)`, then `acc` is a prefix of `w` and the rest of the
/// input still has the shape of a quoted-string tail. This is what makes
/// the quoted form unambiguous: scanning can never commit to a wrong body.
proof fn lemma_esc_parse_prefix(w: Seq<char>, acc: Seq<char>, r: Seq<char>, tail: Seq<char>)
    requires
        esc(w) + seq!['"'] + r == esc(acc) + tail,
    ensures
        exists|v2: Seq<char>|
            w == acc + v2 && tail == esc(v2) + seq!['"'] + r,
    decreases acc.len(),
{
    let full = esc(w) + seq!['"'] + r;
    if acc.len() == 0 {
        assert(esc(acc) == Seq::<char>::empty());
        assert(tail =~= esc(w) + seq!['"'] + r);
        assert(w =~= acc + w);
        assert(w == acc + w && tail == esc(w) + seq!['"'] + r);
    } else {
        lemma_esc_head(acc);
        assert(full[0] == esc(acc)[0]);
        if w.len() == 0 {
            assert(esc(w) == Seq::<char>::empty());
            assert(full[0] == '"');
            assert(false);
        } else {
            lemma_esc_head(w);
            assert(full[0] == esc(w)[0]);
            let w0 = w[0];
            let a0 = acc[0];
            if w0 == '"' || w0 == '\\' {
                if a0 == '"' || a0 == '\\' {
                    assert(full[1] == esc(w)[1]);
                    assert(full[1] == esc(acc)[1]);
                    assert(w0 == a0);
                } else {
                    assert(esc(w)[0] == '\\');
                    assert(esc(acc)[0] == a0);
                    assert(false);
                }
            } else {
                if a0 == '"' || a0 == '\\' {
                    assert(esc(w)[0] == w0);
                    assert(esc(acc)[0] == '\\');
                    assert(false);
                } else {
                    assert(w0 == a0);
                }
            }
            let lhs_rest = esc(w.drop_first()) + seq!['"'] + r;
            let rhs_rest = esc(acc.drop_first()) + tail;
            assert(esc(w) == esc_char(w0) + esc(w.drop_first()));
            assert(esc(acc) == esc_char(a0) + esc(acc.drop_first()));
            assert(full =~= esc_char(w0) + lhs_rest);
            assert(full =~= esc_char(a0) + rhs_rest);
            let k = esc_char(w0).len() as int;
            assert(lhs_rest =~= rhs_rest) by {
                assert(lhs_rest.len() == rhs_rest.len());
                assert forall|t: int| 0 <= t < lhs_rest.len() implies lhs_rest[t] == rhs_rest[t] by {
                    assert(lhs_rest[t] == full[k + t]);
                    assert(rhs_rest[t] == full[k + t]);
                }
            }
            lemma_esc_parse_prefix(w.drop_first(), acc.drop_first(), r, tail);
            let v2 = choose|v2: Seq<char>|
                w.drop_first() == acc.drop_first() + v2 && tail == esc(v2) + seq!['"'] + r;
            assert(w.len() == acc.len() + v2.len());
            assert forall|t: int| 0 <= t < w.len() implies w[t] == (acc + v2)[t] by {
                if t > 0 {
                    assert(w[t] == w.drop_first()[t - 1]);
                    assert(w.drop_first()[t - 1] == (acc.drop_first() + v2)[t - 1]);
                    if t < acc.len() {
                        assert((acc.drop_first() + v2)[t - 1] == acc.drop_first()[t - 1]);
                        assert(acc.drop_first()[t - 1] == acc[t]);
                    } else {
                        assert((acc.drop_first() + v2)[t - 1] == v2[t - acc.len()]);
                    }
                }
            }
            assert(w =~= acc + v2);
            assert(w == acc + v2 && tail == esc(v2) + seq!['"'] + r);
        }
    }
}

/// Whether `pat` occurs in `s` exactly at position `pos`.
fn match_pat(s: &str, pos: usize, n: usize, pat: &Vec<char>) -> (r: bool)
    requires
        n == s@.len(),
        pos <= n,
    ensures
        r == (pos + pat@.len() <= n && s@.subrange(pos as int, pos as int + pat@.len() as int)
            == pat@),
{
    let m = pat.len();
    if m > n - pos {
        return false;
    }
    let mut k: usize = 0;
    while k < m
        invariant
            0 <= k <= m,
            m == pat@.len(),
            n == s@.len(),
            pos + m <= n,
            forall|t: int| 0 <= t < k ==> s@[pos + t] == pat@[t],
        decreases m - k,
    {
        if s.get_char(pos + k) != pat[k] {
            proof {
                assert(s@.subrange(pos as int, pos as int + m as int)[k as int] == s@[pos + k]);
            }
            return false;
        }
        k += 1;
    }
    proof {
        assert(s@.subrange(pos as int, pos as int + m as int) =~= pat@);
    }
    true
}

/// Parses a quoted string at `pos`: returns the unescaped body and the
/// position just past the closing quote. Sound (a result always re-encodes
/// to the consumed input) and complete (whenever some quoted string sits at
/// `pos`, exactly that string is returned).
fn parse_quoted(s: &str, pos: usize, n: usize) -> (r: Option<(Vec<char>, usize)>)
    requires
        n == s@.len(),
        pos <= n,
    ensures
        r matches Some((v, end)) ==> pos < end <= n && s@.subrange(pos as int, end as int)
            == quoted(v@),
        forall|w: Seq<char>, j: int|
            #![trigger quoted(w), s@.subrange(pos as int, j)]
            pos <= j <= n && s@.subrange(pos as int, j) == quoted(w) ==> (r matches Some((v,
            end)) && v@ == w && end == j),
{
    if pos >= n {
        proof {
            assert forall|w: Seq<char>, j: int|
                #![trigger quoted(w), s@.subrange(pos as int, j)]
                !(pos <= j <= n && s@.subrange(pos as int, j) == quoted(w)) by {
                if pos <= j <= n && s@.subrange(pos as int, j) == quoted(w) {
                    assert(j - pos == quoted(w).len());
                    assert(quoted(w).len() >= 2);
                }
            }
        }
        return None;
    }
    let c0 = s.get_char(pos);
    if c0 != '"' {
        proof {
            assert forall|w: Seq<char>, j: int|
                #![trigger quoted(w), s@.subrange(pos as int, j)]
                !(pos <= j <= n && s@.subrange(pos as int, j) == quoted(w)) by {
                if pos <= j <= n && s@.subrange(pos as int, j) == quoted(w) {
                    lemma_quoted_split(s@, pos as int, j, n as int, w);
                }
            }
        }
        return None;
    }
    let mut acc: Vec<char> = Vec::new();
    let mut i: usize = pos + 1;
    loop
        invariant
            pos + 1 <= i <= n,
            n == s@.len(),
            s@[pos as int] == '"',
            esc(acc@) == s@.subrange(pos as int + 1, i as int),
        decreases n - i,
    {
        if i >= n {
            proof {
                assert forall|w: Seq<char>, j: int|
                    #![trigger quoted(w), s@.subrange(pos as int, j)]
                    !(pos <= j <= n && s@.subrange(pos as int, j) == quoted(w)) by {
                    if pos <= j <= n && s@.subrange(pos as int, j) == quoted(w) {
                        let full = esc(w) + seq!['"'] + s@.subrange(j, n as int);
                        lemma_quoted_split(s@, pos as int, j, n as int, w);
                        lemma_subrange_split(s@, pos as int + 1, i as int, n as int);
                        assert(full == esc(acc@) + s@.subrange(i as int, n as int));
                        lemma_esc_parse_prefix(
                            w,
                            acc@,
                            s@.subrange(j, n as int),
                            s@.subrange(i as int, n as int),
                        );
                        let v2 = choose|v2: Seq<char>|
                            w == acc@ + v2 && s@.subrange(i as int, n as int) == esc(v2)
                                + seq!['"'] + s@.subrange(j, n as int);
                        assert(s@.subrange(i as int, n as int).len() == 0);
                        assert((esc(v2) + seq!['"'] + s@.subrange(j, n as int)).len() >= 1);
                    }
                }
            }
            return None;
        }
        let c = s.get_char(i);
        if c == '"' {
            proof {
                assert(s@.subrange(pos as int, i as int + 1) =~= seq!['"'] + esc(acc@)
                    + seq!['"']);
                assert forall|w: Seq<char>, j: int|
                    #![trigger quoted(w), s@.subrange(pos as int, j)]
                    (pos <= j <= n && s@.subrange(pos as int, j) == quoted(w)) implies (w == acc@
                    && j == i + 1) by {
                    let full = esc(w) + seq!['"'] + s@.subrange(j, n as int);
                    lemma_quoted_split(s@, pos as int, j, n as int, w);
                    lemma_subrange_split(s@, pos as int + 1, i as int, n as int);
                    assert(full == esc(acc@) + s@.subrange(i as int, n as int));
                    lemma_esc_parse_prefix(
                        w,
                        acc@,
                        s@.subrange(j, n as int),
                        s@.subrange(i as int, n as int),
                    );
                    let v2 = choose|v2: Seq<char>|
                        w == acc@ + v2 && s@.subrange(i as int, n as int) == esc(v2) + seq!['"']
                            + s@.subrange(j, n as int);
                    if v2.len() > 0 {
                        lemma_esc_head(v2);
                        assert(s@.subrange(i as int, n as int)[0] == s@[i as int]);
                        assert(false);
                    }
                    assert(esc(v2) == Seq::<char>::empty());
                    assert(w =~= acc@);
                    assert(s@.subrange(i as int, n as int) =~= seq!['"'] + s@.subrange(
                        j,
                        n as int,
                    ));
                    assert(n - i == 1 + n - j);
                }
            }
            return Some((acc, i + 1));
        } else if c == '\\' {
            if i + 1 >= n {
                proof {
                    assert forall|w: Seq<char>, j: int|
                        #![trigger quoted(w), s@.subrange(pos as int, j)]
                        !(pos <= j <= n && s@.subrange(pos as int, j) == quoted(w)) by {
                        if pos <= j <= n && s@.subrange(pos as int, j) == quoted(w) {
                            let full = esc(w) + seq!['"'] + s@.subrange(j, n as int);
                            lemma_quoted_split(s@, pos as int, j, n as int, w);
                            lemma_subrange_split(s@, pos as int + 1, i as int, n as int);
                            assert(full == esc(acc@) + s@.subrange(i as int, n as int));
                            lemma_esc_parse_prefix(
                                w,
                                acc@,
                                s@.subrange(j, n as int),
                                s@.subrange(i as int, n as int),
                            );
                            let v2 = choose|v2: Seq<char>|
                                w == acc@ + v2 && s@.subrange(i as int, n as int) == esc(v2)
                                    + seq!['"'] + s@.subrange(j, n as int);
                            let tail = s@.subrange(i as int, n as int);
                            assert(tail.len() == 1);
                            assert(tail[0] == s@[i as int]);
                            if v2.len() == 0 {
                                assert(esc(v2) == Seq::<char>::empty());
                                assert(tail[0] == '"');
                                assert(false);
                            } else {
                                lemma_esc_head(v2);
                                if v2[0] == '"' || v2[0] == '\\' {
                                    assert(tail.len() >= 3);
                                } else {
                                    assert(tail[0] == esc(v2)[0]);
                                    assert(esc(v2)[0] == v2[0]);
                                }
                                assert(false);
                            }
                        }
                    }
                }
                return None;
            }
            let d = s.get_char(i + 1);
            if d == '"' || d == '\\' {
                proof {
                    lemma_esc_snoc(acc@, d);
                    assert(s@.subrange(pos as int + 1, i as int + 2) =~= s@.subrange(
                        pos as int + 1,
                        i as int,
                    ) + seq![s@[i as int], s@[i as int + 1]]);
                    assert(esc(acc@.push(d)) =~= s@.subrange(pos as int + 1, i as int + 2));
                }
                acc.push(d);
                i += 2;
            } else {
                proof {
                    assert forall|w: Seq<char>, j: int|
                        #![trigger quoted(w), s@.subrange(pos as int, j)]
                        !(pos <= j <= n && s@.subrange(pos as int, j) == quoted(w)) by {
                        if pos <= j <= n && s@.subrange(pos as int, j) == quoted(w) {
                            let full = esc(w) + seq!['"'] + s@.subrange(j, n as int);
                            lemma_quoted_split(s@, pos as int, j, n as int, w);
                            lemma_subrange_split(s@, pos as int + 1, i as int, n as int);
                            assert(full == esc(acc@) + s@.subrange(i as int, n as int));
                            lemma_esc_parse_prefix(
                                w,
                                acc@,
                                s@.subrange(j, n as int),
                                s@.subrange(i as int, n as int),
                            );
                            let v2 = choose|v2: Seq<char>|
                                w == acc@ + v2 && s@.subrange(i as int, n as int) == esc(v2)
                                    + seq!['"'] + s@.subrange(j, n as int);
                            let tail = s@.subrange(i as int, n as int);
                            assert(tail[0] == s@[i as int]);
                            assert(tail[1] == s@[i as int + 1]);
                            if v2.len() == 0 {
                                assert(esc(v2) == Seq::<char>::empty());
                                assert(tail[0] == '"');
                                assert(false);
                            } else {
                                lemma_esc_head(v2);
                                if v2[0] == '"' || v2[0] == '\\' {
                                    assert(tail[1] == esc(v2)[1]);
                                    assert(esc(v2)[1] == v2[0]);
                                    assert(false);
                                } else {
                                    assert(tail[0] == esc(v2)[0]);
                                    assert(esc(v2)[0] == v2[0]);
                                    assert(false);
                                }
                            }
                        }
                    }
                }
                return None;
            }
        } else {
            proof {
                lemma_esc_snoc(acc@, c);
                assert(s@.subrange(pos as int + 1, i as int + 1) =~= s@.subrange(
                    pos as int + 1,
                    i as int,
                ) + seq![s@[i as int]]);
                assert(esc(acc@.push(c)) =~= s@.subrange(pos as int + 1, i as int + 1));
            }
            acc.push(c);
            i += 1;
        }
    }
}

/// End of the peer-id value, relative to the start of a peer record.
spec fn id_end(q: PeerView) -> int {
    11 + quoted(q.peer_id).len() as int
}

/// End of the offer-type value, relative to the start of a peer record.
spec fn type_end(q: PeerView) -> int {
    id_end(q) + 17 + quoted(q.offer.offer_type).len() as int
}

/// End of the sdp value, relative to the start of a peer record.
spec fn sdp_end(q: PeerView) -> int {
    type_end(q) + 7 + quoted(q.offer.sdp).len() as int
}

/// Where each labelled piece of a peer record sits inside its encoding.
#[verifier::rlimit(60)]
proof fn lemma_enc_peer_pieces(q: PeerView)
    ensures
        enc_peer(q).len() == sdp_end(q) + 2,
        enc_peer(q).subrange(0, 11) == peer_id_label(),
        enc_peer(q).subrange(11, id_end(q)) == quoted(q.peer_id),
        enc_peer(q).subrange(id_end(q), id_end(q) + 17) == offer_label(),
        enc_peer(q).subrange(id_end(q) + 17, type_end(q)) == quoted(q.offer.offer_type),
        enc_peer(q).subrange(type_end(q), type_end(q) + 7) == sdp_label(),
        enc_peer(q).subrange(type_end(q) + 7, sdp_end(q)) == quoted(q.offer.sdp),
        enc_peer(q).subrange(sdp_end(q), sdp_end(q) + 2) == peer_close(),
        enc_peer(q)[0] == '{',
{
    assert(enc_peer(q).subrange(0, 11) =~= peer_id_label());
    assert(enc_peer(q).subrange(11, id_end(q)) =~= quoted(q.peer_id));
    assert(enc_peer(q).subrange(id_end(q), id_end(q) + 17) =~= offer_label());
    assert(enc_peer(q).subrange(id_end(q) + 17, type_end(q)) =~= quoted(q.offer.offer_type));
    assert(enc_peer(q).subrange(type_end(q), type_end(q) + 7) =~= sdp_label());
    assert(enc_peer(q).subrange(type_end(q) + 7, sdp_end(q)) =~= quoted(q.offer.sdp));
    assert(enc_peer(q).subrange(sdp_end(q), sdp_end(q) + 2) =~= peer_close());
}

/// A subrange of a matched range matches the same subrange of the pattern.
proof fn lemma_subrange_of_match(s: Seq<char>, pos: int, j: int, e: Seq<char>, a: int, b: int)
    requires
        0 <= pos <= j <= s.len(),
        s.subrange(pos, j) == e,
        0 <= a <= b <= e.len(),
    ensures
        s.subrange(pos + a, pos + b) == e.subrange(a, b),
{
    assert forall|t: int| 0 <= t < b - a implies s.subrange(pos + a, pos + b)[t] == e.subrange(
        a,
        b,
    )[t] by {
        assert(s.subrange(pos + a, pos + b)[t] == s[pos + a + t]);
        assert(s[pos + a + t] == s.subrange(pos, j)[a + t]);
    }
    assert(s.subrange(pos + a, pos + b) =~= e.subrange(a, b));
}

fn peer_id_label_vec() -> (v: Vec<char>)
    ensures
        v@ == peer_id_label(),
{
    let mut v: Vec<char> = Vec::new();
    v.push('{');
    v.push('"');
    v.push('p');
    v.push('e');
    v.push('e');
    v.push('r');
    v.push('_');
    v.push('i');
    v.push('d');
    v.push('"');
    v.push(':');
    proof {
        assert(v@ =~= peer_id_label());
    }
    v
}

fn offer_label_vec() -> (v: Vec<char>)
    ensures
        v@ == offer_label(),
{
    let mut v: Vec<char> = Vec::new();
    v.push(',');
    v.push('"');
    v.push('o');
    v.push('f');
    v.push('f');
    v.push('e');
    v.push('r');
    v.push('"');
    v.push(':');
    v.push('{');
    v.push('"');
    v.push('t');
    v.push('y');
    v.push('p');
    v.push('e');
    v.push('"');
    v.push(':');
    proof {
        assert(v@ =~= offer_label());
    }
    v
}

fn sdp_label_vec() -> (v: Vec<char>)
    ensures
        v@ == sdp_label(),
{
    let mut v: Vec<char> = Vec::new();
    v.push(',');
    v.push('"');
    v.push('s');
    v.push('d');
    v.push('p');
    v.push('"');
    v.push(':');
    proof {
        assert(v@ =~= sdp_label());
    }
    v
}

fn peer_close_vec() -> (v: Vec<char>)
    ensures
        v@ == peer_close(),
{
    let mut v: Vec<char> = Vec::new();
    v.push('}');
    v.push('}');
    proof {
        assert(v@ =~= peer_close());
    }
    v
}

/// Parses one peer record at `pos`. Sound and complete in the same sense as
/// `parse_quoted`.
#[verifier::rlimit(100)]
fn parse_peer(s: &str, pos: usize, n: usize) -> (r: Option<(Peer, usize)>)
    requires
        n == s@.len(),
        pos <= n,
    ensures
        r matches Some((p, end)) ==> pos < end <= n && s@.subrange(pos as int, end as int)
            == enc_peer(p@),
        forall|q: PeerView, j: int|
            #![trigger enc_peer(q), s@.subrange(pos as int, j)]
            pos <= j <= n && s@.subrange(pos as int, j) == enc_peer(q) ==> (r matches Some((p,
            end)) && p@ == q && end == j),
{
    let lab1 = peer_id_label_vec();
    if !match_pat(s, pos, n, &lab1) {
        proof {
            assert forall|q: PeerView, j: int|
                #![trigger enc_peer(q), s@.subrange(pos as int, j)]
                !(pos <= j <= n && s@.subrange(pos as int, j) == enc_peer(q)) by {
                if pos <= j <= n && s@.subrange(pos as int, j) == enc_peer(q) {
                    lemma_enc_peer_pieces(q);
                    lemma_subrange_of_match(s@, pos as int, j, enc_peer(q), 0, 11);
                }
            }
        }
        return None;
    }
    let r1 = parse_quoted(s, pos + 11, n);
    if r1.is_none() {
        proof {
            assert forall|q: PeerView, j: int|
                #![trigger enc_peer(q), s@.subrange(pos as int, j)]
                !(pos <= j <= n && s@.subrange(pos as int, j) == enc_peer(q)) by {
                if pos <= j <= n && s@.subrange(pos as int, j) == enc_peer(q) {
                    lemma_enc_peer_pieces(q);
                    lemma_subrange_of_match(s@, pos as int, j, enc_peer(q), 11, id_end(q));
                }
            }
        }
        return None;
    }
    let (idv, e1) = r1.unwrap();
    proof {
        assert forall|q: PeerView, j: int|
            #![trigger enc_peer(q), s@.subrange(pos as int, j)]
            (pos <= j <= n && s@.subrange(pos as int, j) == enc_peer(q)) implies (idv@
            == q.peer_id && e1 == pos + id_end(q)) by {
            lemma_enc_peer_pieces(q);
            lemma_subrange_of_match(s@, pos as int, j, enc_peer(q), 11, id_end(q));
        }
    }
    let lab2 = offer_label_vec();
    if !match_pat(s, e1, n, &lab2) {
        proof {
            assert forall|q: PeerView, j: int|
                #![trigger enc_peer(q), s@.subrange(pos as int, j)]
                !(pos <= j <= n && s@.subrange(pos as int, j) == enc_peer(q)) by {
                if pos <= j <= n && s@.subrange(pos as int, j) == enc_peer(q) {
                    lemma_enc_peer_pieces(q);
                    lemma_subrange_of_match(
                        s@,
                        pos as int,
                        j,
                        enc_peer(q),
                        id_end(q),
                        id_end(q) + 17,
                    );
                }
            }
        }
        return None;
    }
    let r2 = parse_quoted(s, e1 + 17, n);
    if r2.is_none() {
        proof {
            assert forall|q: PeerView, j: int|
                #![trigger enc_peer(q), s@.subrange(pos as int, j)]
                !(pos <= j <= n && s@.subrange(pos as int, j) == enc_peer(q)) by {
                if pos <= j <= n && s@.subrange(pos as int, j) == enc_peer(q) {
                    lemma_enc_peer_pieces(q);
                    lemma_subrange_of_match(
                        s@,
                        pos as int,
                        j,
                        enc_peer(q),
                        id_end(q) + 17,
                        type_end(q),
                    );
                }
            }
        }
        return None;
    }
    let (tyv, e2) = r2.unwrap();
    proof {
        assert forall|q: PeerView, j: int|
            #![trigger enc_peer(q), s@.subrange(pos as int, j)]
            (pos <= j <= n && s@.subrange(pos as int, j) == enc_peer(q)) implies (tyv@
            == q.offer.offer_type && e2 == pos + type_end(q)) by {
            lemma_enc_peer_pieces(q);
            lemma_subrange_of_match(s@, pos as int, j, enc_peer(q), id_end(q) + 17, type_end(q));
        }
    }
    let lab3 = sdp_label_vec();
    if !match_pat(s, e2, n, &lab3) {
        proof {
            assert forall|q: PeerView, j: int|
                #![trigger enc_peer(q), s@.subrange(pos as int, j)]
                !(pos <= j <= n && s@.subrange(pos as int, j) == enc_peer(q)) by {
                if pos <= j <= n && s@.subrange(pos as int, j) == enc_peer(q) {
                    lemma_enc_peer_pieces(q);
                    lemma_subrange_of_match(
                        s@,
                        pos as int,
                        j,
                        enc_peer(q),
                        type_end(q),
                        type_end(q) + 7,
                    );
                }
            }
        }
        return None;
    }
    let r3 = parse_quoted(s, e2 + 7, n);
    if r3.is_none() {
        proof {
            assert forall|q: PeerView, j: int|
                #![trigger enc_peer(q), s@.subrange(pos as int, j)]
                !(pos <= j <= n && s@.subrange(pos as int, j) == enc_peer(q)) by {
                if pos <= j <= n && s@.subrange(pos as int, j) == enc_peer(q) {
                    lemma_enc_peer_pieces(q);
                    lemma_subrange_of_match(
                        s@,
                        pos as int,
                        j,
                        enc_peer(q),
                        type_end(q) + 7,
                        sdp_end(q),
                    );
                }
            }
        }
        return None;
    }
    let (sdv, e3) = r3.unwrap();
    proof {
        assert forall|q: PeerView, j: int|
            #![trigger enc_peer(q), s@.subrange(pos as int, j)]
            (pos <= j <= n && s@.subrange(pos as int, j) == enc_peer(q)) implies (sdv@
            == q.offer.sdp && e3 == pos + sdp_end(q)) by {
            lemma_enc_peer_pieces(q);
            lemma_subrange_of_match(s@, pos as int, j, enc_peer(q), type_end(q) + 7, sdp_end(q));
        }
    }
    let lab4 = peer_close_vec();
    if !match_pat(s, e3, n, &lab4) {
        proof {
            assert forall|q: PeerView, j: int|
                #![trigger enc_peer(q), s@.subrange(pos as int, j)]
                !(pos <= j <= n && s@.subrange(pos as int, j) == enc_peer(q)) by {
                if pos <= j <= n && s@.subrange(pos as int, j) == enc_peer(q) {
                    lemma_enc_peer_pieces(q);
                    lemma_subrange_of_match(
                        s@,
                        pos as int,
                        j,
                        enc_peer(q),
                        sdp_end(q),
                        sdp_end(q) + 2,
                    );
                }
            }
        }
        return None;
    }
    let id_s = chars_to_string(&idv);
    let ty_s = chars_to_string(&tyv);
    let sd_s = chars_to_string(&sdv);
    let p = Peer::new(id_s, Offer::new(ty_s, sd_s));
    let end = e3 + 2;
    proof {
        lemma_subrange_split(s@, pos as int, pos as int + 11, e1 as int);
        lemma_subrange_split(s@, pos as int, e1 as int, e1 as int + 17);
        lemma_subrange_split(s@, pos as int, e1 as int + 17, e2 as int);
        lemma_subrange_split(s@, pos as int, e2 as int, e2 as int + 7);
        lemma_subrange_split(s@, pos as int, e2 as int + 7, e3 as int);
        lemma_subrange_split(s@, pos as int, e3 as int, end as int);
        assert(s@.subrange(pos as int, end as int) =~= peer_id_label() + quoted(idv@)
            + offer_label() + quoted(tyv@) + sdp_label() + quoted(sdv@) + peer_close());
        assert(s@.subrange(pos as int, end as int) == enc_peer(p@));
        assert forall|q: PeerView, j: int|
            #![trigger enc_peer(q), s@.subrange(pos as int, j)]
            (pos <= j <= n && s@.subrange(pos as int, j) == enc_peer(q)) implies (p@ == q && end
            == j) by {
            lemma_enc_peer_pieces(q);
            assert(p@.peer_id == q.peer_id);
            assert(p@.offer.offer_type == q.offer.offer_type);
            assert(p@.offer.sdp == q.offer.sdp);
            assert(j - pos == enc_peer(q).len());
        }
    }
    Some((p, end))
}

/// Decodes one peer record from its canonical form. Accepts exactly the
/// encodings that `enc_peer` describes and reports anything else as a
/// decode failure.
pub fn decode_peer(s: &str) -> (r: Result<Peer, SessionError>)
    ensures
        r matches Ok(p) ==> s@ == enc_peer(p@),
        r matches Err(e) ==> e == SessionError::DecodeError,
        forall|q: PeerView| #![trigger enc_peer(q)] s@ == enc_peer(q) ==> (r matches Ok(p) && p@
            == q),
{
    let n = s.unicode_len();
    proof {
        assert(s@.subrange(0, n as int) =~= s@);
    }
    match parse_peer(s, 0, n) {
        Some((p, end)) => {
            if end == n {
                Ok(p)
            } else {
                proof {
                    assert forall|q: PeerView| #![trigger enc_peer(q)] s@ != enc_peer(q) by {
                        if s@ == enc_peer(q) {
                            assert(s@.subrange(0 as int, n as int) == enc_peer(q));
                        }
                    }
                }
                Err(SessionError::DecodeError)
            }
        },
        None => {
            proof {
                assert forall|q: PeerView| #![trigger enc_peer(q)] s@ != enc_peer(q) by {
                    if s@ == enc_peer(q) {
                        assert(s@.subrange(0 as int, n as int) == enc_peer(q));
                    }
                }
            }
            Err(SessionError::DecodeError)
        },
    }
}

/// A non-empty peer list encodes to a non-empty text that opens a record.
proof fn lemma_enc_peers_head(qs: Seq<PeerView>)
    requires
        qs.len() > 0,
    ensures
        enc_peers(qs).len() > 0,
        enc_peers(qs)[0] == '{',
        qs.len() == 1 ==> enc_peers(qs) == enc_peer(qs[0]),
        qs.len() > 1 ==> enc_peers(qs) == enc_peer(qs[0]) + seq![','] + enc_peers(
            qs.drop_first(),
        ),
{
    lemma_enc_peer_pieces(qs[0]);
}

/// An encoded session splits into an opening bracket, the encoded peers,
/// and a closing bracket.
proof fn lemma_enc_session_split(s: Seq<char>, n: int, qs: Seq<PeerView>)
    requires
        n == s.len(),
        s == enc_session(qs),
    ensures
        n == 2 + enc_peers(qs).len(),
        s[0] == '[',
        s.subrange(1, n) == enc_peers(qs) + seq![']'],
{
    assert(s.subrange(1, n) =~= enc_peers(qs) + seq![']']);
}

/// If the rest of the input is an encoded non-empty peer list followed by
/// the closing bracket, the first record sits at the front and what follows
/// it is either the bracket or a comma and the remaining records.
proof fn lemma_rem_head(s: Seq<char>, i: int, n: int, rest: Seq<PeerView>)
    requires
        n == s.len(),
        0 <= i <= n,
        rest.len() > 0,
        s.subrange(i, n) == enc_peers(rest) + seq![']'],
    ensures
        i + enc_peer(rest[0]).len() < n,
        s.subrange(i, i + enc_peer(rest[0]).len()) == enc_peer(rest[0]),
        rest.len() == 1 ==> s.subrange(i + enc_peer(rest[0]).len(), n) == seq![']'],
        rest.len() > 1 ==> s.subrange(i + enc_peer(rest[0]).len(), n) == seq![','] + enc_peers(
            rest.drop_first(),
        ) + seq![']'],
{
    lemma_enc_peers_head(rest);
    let ep = enc_peer(rest[0]);
    let ee = enc_peers(rest) + seq![']'];
    let el = ee.len() as int;
    if rest.len() == 1 {
        assert(ee.subrange(0, ep.len() as int) =~= ep);
        lemma_subrange_of_match(s, i, n, ee, 0, ep.len() as int);
        assert(ee.subrange(ep.len() as int, el) =~= seq![']']);
        lemma_subrange_of_match(s, i, n, ee, ep.len() as int, el);
    } else {
        assert(ee.subrange(0, ep.len() as int) =~= ep);
        lemma_subrange_of_match(s, i, n, ee, 0, ep.len() as int);
        assert(ee.subrange(ep.len() as int, el) =~= seq![','] + enc_peers(rest.drop_first())
            + seq![']']);
        lemma_subrange_of_match(s, i, n, ee, ep.len() as int, el);
    }
}

/// Decodes a stored session value. Accepts exactly the canonical encodings
/// that `enc_session` describes: a decoded session always re-encodes to the
/// input, every encoded session is decoded to exactly its peers, and any
/// other input is reported as a decode failure.
#[verifier::rlimit(100)]
pub fn decode_session(s: &str) -> (r: Result<Session, SessionError>)
    ensures
        r matches Ok(ps) ==> s@ == enc_session(ps.deep_view()),
        r matches Err(e) ==> e == SessionError::DecodeError,
        forall|qs: Seq<PeerView>| #![trigger enc_session(qs)] s@ == enc_session(qs) ==> (
        r matches Ok(ps) && ps.deep_view() == qs),
{
    let n = s.unicode_len();
    if n < 2 {
        proof {
            assert forall|qs: Seq<PeerView>| #![trigger enc_session(qs)] s@ != enc_session(
                qs,
            ) by {
                if s@ == enc_session(qs) {
                    lemma_enc_session_split(s@, n as int, qs);
                }
            }
        }
        return Err(SessionError::DecodeError);
    }
    if s.get_char(0) != '[' {
        proof {
            assert forall|qs: Seq<PeerView>| #![trigger enc_session(qs)] s@ != enc_session(
                qs,
            ) by {
                if s@ == enc_session(qs) {
                    lemma_enc_session_split(s@, n as int, qs);
                }
            }
        }
        return Err(SessionError::DecodeError);
    }
    if s.get_char(1) == ']' {
        if n == 2 {
            let empty: Vec<Peer> = Vec::new();
            proof {
                assert(empty.deep_view() =~= Seq::<PeerView>::empty());
                assert(s@ =~= enc_session(empty.deep_view()));
                assert forall|qs: Seq<PeerView>| #![trigger enc_session(qs)] s@ == enc_session(
                    qs,
                ) implies qs == empty.deep_view() by {
                    lemma_enc_session_split(s@, n as int, qs);
                    if qs.len() > 0 {
                        lemma_enc_peers_head(qs);
                        assert(s@.subrange(1, n as int)[0] == s@[1]);
                        assert(false);
                    }
                    assert(qs =~= empty.deep_view());
                }
            }
            return Ok(empty);
        } else {
            proof {
                assert forall|qs: Seq<PeerView>| #![trigger enc_session(qs)] s@ != enc_session(
                    qs,
                ) by {
                    if s@ == enc_session(qs) {
                        lemma_enc_session_split(s@, n as int, qs);
                        if qs.len() == 0 {
                            assert(s@.subrange(1, n as int) =~= seq![']']);
                            assert(n == 2);
                        } else {
                            lemma_enc_peers_head(qs);
                            assert(s@.subrange(1, n as int)[0] == s@[1]);
                        }
                    }
                }
            }
            return Err(SessionError::DecodeError);
        }
    }
    let mut peers: Vec<Peer> = Vec::new();
    let mut i: usize = 1;
    proof {
        assert(peers.deep_view() =~= Seq::<PeerView>::empty());
        assert forall|qs: Seq<PeerView>| #![trigger enc_session(qs)] s@ == enc_session(
            qs,
        ) implies {
            &&& peers.deep_view().len() < qs.len()
            &&& qs.subrange(0, peers.deep_view().len() as int) == peers.deep_view()
            &&& s@.subrange(i as int, n as int) == enc_peers(
                qs.subrange(peers.deep_view().len() as int, qs.len() as int),
            ) + seq![']']
        } by {
            lemma_enc_session_split(s@, n as int, qs);
            if qs.len() == 0 {
                assert(s@.subrange(1, n as int) =~= seq![']']);
                assert(s@.subrange(1, n as int)[0] == s@[1]);
                assert(false);
            }
            assert(qs.subrange(0, 0) =~= peers.deep_view());
            assert(qs.subrange(0, qs.len() as int) =~= qs);
        }
    }
    loop
        invariant
            1 <= i <= n,
            n == s@.len(),
            s@[0] == '[',
            peers.deep_view().len() == 0 ==> i == 1,
            peers.deep_view().len() > 0 ==> s@.subrange(1, i as int) == enc_peers(
                peers.deep_view(),
            ) + seq![','],
            forall|qs: Seq<PeerView>| #![trigger enc_session(qs)] s@ == enc_session(qs) ==> {
                &&& peers.deep_view().len() < qs.len()
                &&& qs.subrange(0, peers.deep_view().len() as int) == peers.deep_view()
                &&& s@.subrange(i as int, n as int) == enc_peers(
                    qs.subrange(peers.deep_view().len() as int, qs.len() as int),
                ) + seq![']']
            },
        decreases n - i,
    {
        let ghost peers0 = peers.deep_view();
        let ghost k = peers0.len() as int;
        let pr = parse_peer(s, i, n);
        if pr.is_none() {
            proof {
                assert forall|qs: Seq<PeerView>| #![trigger enc_session(qs)] s@ != enc_session(
                    qs,
                ) by {
                    if s@ == enc_session(qs) {
                        let rest = qs.subrange(k, qs.len() as int);
                        lemma_rem_head(s@, i as int, n as int, rest);
                    }
                }
            }
            return Err(SessionError::DecodeError);
        }
        let (p, e) = pr.unwrap();
        proof {
            assert forall|qs: Seq<PeerView>| #![trigger enc_session(qs)] s@ == enc_session(
                qs,
            ) implies (p@ == qs[k] && e == i + enc_peer(qs[k]).len()) by {
                let rest = qs.subrange(k, qs.len() as int);
                lemma_rem_head(s@, i as int, n as int, rest);
                assert(rest[0] == qs[k]);
            }
        }
        peers.push(p);
        proof {
            assert(peers.deep_view() =~= peers0.push(p@));
        }
        if e >= n {
            proof {
                assert forall|qs: Seq<PeerView>| #![trigger enc_session(qs)] s@ != enc_session(
                    qs,
                ) by {
                    if s@ == enc_session(qs) {
                        let rest = qs.subrange(k, qs.len() as int);
                        lemma_rem_head(s@, i as int, n as int, rest);
                    }
                }
            }
            return Err(SessionError::DecodeError);
        }
        let c = s.get_char(e);
        proof {
            // The consumed prefix now encodes the collected peers.
            if k == 0 {
                assert(s@.subrange(1, e as int) == enc_peer(p@));
                assert(peers.deep_view() =~= seq![p@]);
                assert(enc_peers(seq![p@]) == enc_peer(p@));
            } else {
                lemma_subrange_split(s@, 1, i as int, e as int);
                lemma_enc_peers_snoc(peers0, p@);
                assert(s@.subrange(1, e as int) =~= enc_peers(peers0) + seq![','] + enc_peer(
                    p@,
                ));
                assert(s@.subrange(1, e as int) == enc_peers(peers.deep_view()));
            }
            assert(s@.subrange(1, e as int) == enc_peers(peers.deep_view()));
        }
        if c == ']' {
            if e + 1 == n {
                proof {
                    let nv = peers.deep_view();
                    assert forall|t: int| 0 <= t < n implies s@[t] == (seq!['['] + enc_peers(nv)
                        + seq![']'])[t] by {
                        if 1 <= t < e {
                            assert(s@[t] == s@.subrange(1, e as int)[t - 1]);
                        }
                    }
                    assert(s@ =~= seq!['['] + enc_peers(nv) + seq![']']);
                    assert(s@ == enc_session(nv));
                    assert forall|qs: Seq<PeerView>| #![trigger enc_session(qs)] s@
                        == enc_session(qs) implies qs == nv by {
                        let rest = qs.subrange(k, qs.len() as int);
                        lemma_rem_head(s@, i as int, n as int, rest);
                        if rest.len() > 1 {
                            assert(s@.subrange(e as int, n as int)[0] == s@[e as int]);
                            assert(false);
                        }
                        assert(qs.len() == k + 1);
                        assert(qs =~= nv);
                    }
                }
                return Ok(peers);
            } else {
                proof {
                    assert forall|qs: Seq<PeerView>| #![trigger enc_session(qs)] s@
                        != enc_session(qs) by {
                        if s@ == enc_session(qs) {
                            let rest = qs.subrange(k, qs.len() as int);
                            lemma_rem_head(s@, i as int, n as int, rest);
                            if rest.len() == 1 {
                                assert(s@.subrange(e as int, n as int).len() == 1);
                            } else {
                                assert(s@.subrange(e as int, n as int)[0] == s@[e as int]);
                            }
                        }
                    }
                }
                return Err(SessionError::DecodeError);
            }
        } else if c == ',' {
            proof {
                assert forall|qs: Seq<PeerView>| #![trigger enc_session(qs)] s@ == enc_session(
                    qs,
                ) implies {
                    &&& peers.deep_view().len() < qs.len()
                    &&& qs.subrange(0, peers.deep_view().len() as int) == peers.deep_view()
                    &&& s@.subrange(e as int + 1, n as int) == enc_peers(
                        qs.subrange(peers.deep_view().len() as int, qs.len() as int),
                    ) + seq![']']
                } by {
                    let rest = qs.subrange(k, qs.len() as int);
                    lemma_rem_head(s@, i as int, n as int, rest);
                    if rest.len() == 1 {
                        assert(s@.subrange(e as int, n as int)[0] == s@[e as int]);
                        assert(false);
                    }
                    let after = seq![','] + enc_peers(rest.drop_first()) + seq![']'];
                    lemma_subrange_of_match(
                        s@,
                        e as int,
                        n as int,
                        after,
                        1,
                        after.len() as int,
                    );
                    assert(after.subrange(1, after.len() as int) =~= enc_peers(
                        rest.drop_first(),
                    ) + seq![']']);
                    assert(rest.drop_first() =~= qs.subrange(k + 1, qs.len() as int));
                    assert(qs.subrange(0, k + 1) =~= peers.deep_view());
                }
                // The consumed prefix including the comma.
                lemma_subrange_split(s@, 1, e as int, e as int + 1);
                assert(s@.subrange(1, e as int + 1) =~= enc_peers(peers.deep_view())
                    + seq![',']);
            }
            i = e + 1;
        } else {
            proof {
                assert forall|qs: Seq<PeerView>| #![trigger enc_session(qs)] s@ != enc_session(
                    qs,
                ) by {
                    if s@ == enc_session(qs) {
                        let rest = qs.subrange(k, qs.len() as int);
                        lemma_rem_head(s@, i as int, n as int, rest);
                        if rest.len() == 1 {
                            assert(s@.subrange(e as int, n as int)[0] == s@[e as int]);
                        } else {
                            assert(s@.subrange(e as int, n as int)[0] == s@[e as int]);
                        }
                    }
                }
            }
            return Err(SessionError::DecodeError);
        }
    }
}

/// A quoted string determines its body and what follows it.
proof fn lemma_quoted_unamb(a: Seq<char>, b: Seq<char>, ra: Seq<char>, rb: Seq<char>)
    requires
        quoted(a) + ra == quoted(b) + rb,
    ensures
        a == b,
        ra == rb,
{
    let s = quoted(a) + ra;
    let ta = esc(a) + seq!['"'] + ra;
    let tb = esc(b) + (seq!['"'] + rb);
    assert(ta =~= s.subrange(1, s.len() as int));
    assert(tb =~= s.subrange(1, s.len() as int));
    lemma_esc_parse_prefix(a, b, ra, seq!['"'] + rb);
    let v2 = choose|v2: Seq<char>|
        a == b + v2 && seq!['"'] + rb == esc(v2) + seq!['"'] + ra;
    if v2.len() > 0 {
        lemma_esc_head(v2);
        assert((seq!['"'] + rb)[0] == '"');
        assert(false);
    }
    assert(esc(v2) == Seq::<char>::empty());
    assert(a =~= b);
    assert(ra =~= rb) by {
        assert(seq!['"'] + rb =~= seq!['"'] + ra);
        assert forall|t: int| 0 <= t < ra.len() implies ra[t] == rb[t] by {
            assert((seq!['"'] + ra)[t + 1] == ra[t]);
            assert((seq!['"'] + rb)[t + 1] == rb[t]);
        }
    }
}

/// An encoded peer record determines the peer and what follows the record.
#[verifier::rlimit(100)]
proof fn lemma_enc_peer_unamb(p: PeerView, q: PeerView, ra: Seq<char>, rb: Seq<char>)
    requires
        enc_peer(p) + ra == enc_peer(q) + rb,
    ensures
        p == q,
        ra == rb,
{
    lemma_enc_peer_pieces(p);
    lemma_enc_peer_pieces(q);
    let s = enc_peer(p) + ra;
    let sl = s.len() as int;
    assert(s.subrange(0, enc_peer(p).len() as int) =~= enc_peer(p));
    assert(s.subrange(0, enc_peer(q).len() as int) =~= enc_peer(q));
    lemma_subrange_of_match(s, 0, enc_peer(p).len() as int, enc_peer(p), 11, id_end(p));
    lemma_subrange_of_match(s, 0, enc_peer(q).len() as int, enc_peer(q), 11, id_end(q));
    lemma_subrange_split(s, 11, id_end(p), sl);
    lemma_subrange_split(s, 11, id_end(q), sl);
    lemma_quoted_unamb(
        p.peer_id,
        q.peer_id,
        s.subrange(id_end(p), sl),
        s.subrange(id_end(q), sl),
    );
    assert(id_end(p) == id_end(q));
    lemma_subrange_of_match(
        s,
        0,
        enc_peer(p).len() as int,
        enc_peer(p),
        id_end(p) + 17,
        type_end(p),
    );
    lemma_subrange_of_match(
        s,
        0,
        enc_peer(q).len() as int,
        enc_peer(q),
        id_end(q) + 17,
        type_end(q),
    );
    lemma_subrange_split(s, id_end(p) + 17, type_end(p), sl);
    lemma_subrange_split(s, id_end(q) + 17, type_end(q), sl);
    lemma_quoted_unamb(
        p.offer.offer_type,
        q.offer.offer_type,
        s.subrange(type_end(p), sl),
        s.subrange(type_end(q), sl),
    );
    assert(type_end(p) == type_end(q));
    lemma_subrange_of_match(
        s,
        0,
        enc_peer(p).len() as int,
        enc_peer(p),
        type_end(p) + 7,
        sdp_end(p),
    );
    lemma_subrange_of_match(
        s,
        0,
        enc_peer(q).len() as int,
        enc_peer(q),
        type_end(q) + 7,
        sdp_end(q),
    );
    lemma_subrange_split(s, type_end(p) + 7, sdp_end(p), sl);
    lemma_subrange_split(s, type_end(q) + 7, sdp_end(q), sl);
    lemma_quoted_unamb(
        p.offer.sdp,
        q.offer.sdp,
        s.subrange(sdp_end(p), sl),
        s.subrange(sdp_end(q), sl),
    );
    assert(sdp_end(p) == sdp_end(q));
    assert(p == q);
    assert(enc_peer(p).len() == enc_peer(q).len());
    assert(ra =~= rb) by {
        assert forall|t: int| 0 <= t < ra.len() implies ra[t] == rb[t] by {
            assert((enc_peer(p) + ra)[enc_peer(p).len() + t] == ra[t]);
            assert((enc_peer(q) + rb)[enc_peer(q).len() + t] == rb[t]);
        }
    }
}

/// Two peer lists with the same encoding are the same list.
proof fn lemma_enc_peers_inj(a: Seq<PeerView>, b: Seq<PeerView>)
    requires
        enc_peers(a) == enc_peers(b),
    ensures
        a == b,
    decreases a.len(),
{
    if a.len() == 0 {
        if b.len() > 0 {
            lemma_enc_peers_head(b);
            assert(false);
        }
        assert(a =~= b);
    } else if b.len() == 0 {
        lemma_enc_peers_head(a);
        assert(false);
    } else {
        lemma_enc_peers_head(a);
        lemma_enc_peers_head(b);
        if a.len() == 1 && b.len() == 1 {
            assert(enc_peer(a[0]) + Seq::<char>::empty() =~= enc_peer(a[0]));
            assert(enc_peer(b[0]) + Seq::<char>::empty() =~= enc_peer(b[0]));
            lemma_enc_peer_unamb(a[0], b[0], Seq::empty(), Seq::empty());
            assert(a =~= b);
        } else if a.len() == 1 {
            assert(enc_peer(a[0]) + Seq::<char>::empty() =~= enc_peer(a[0]));
            assert(enc_peers(b) =~= enc_peer(b[0]) + (seq![','] + enc_peers(b.drop_first())));
            lemma_enc_peer_unamb(
                a[0],
                b[0],
                Seq::empty(),
                seq![','] + enc_peers(b.drop_first()),
            );
            assert(false);
        } else if b.len() == 1 {
            assert(enc_peer(b[0]) + Seq::<char>::empty() =~= enc_peer(b[0]));
            assert(enc_peers(a) =~= enc_peer(a[0]) + (seq![','] + enc_peers(a.drop_first())));
            lemma_enc_peer_unamb(
                a[0],
                b[0],
                seq![','] + enc_peers(a.drop_first()),
                Seq::empty(),
            );
            assert(false);
        } else {
            assert(enc_peers(a) =~= enc_peer(a[0]) + (seq![','] + enc_peers(a.drop_first())));
            assert(enc_peers(b) =~= enc_peer(b[0]) + (seq![','] + enc_peers(b.drop_first())));
            lemma_enc_peer_unamb(
                a[0],
                b[0],
                seq![','] + enc_peers(a.drop_first()),
                seq![','] + enc_peers(b.drop_first()),
            );
            let xa = seq![','] + enc_peers(a.drop_first());
            let xb = seq![','] + enc_peers(b.drop_first());
            assert(enc_peers(a.drop_first()) =~= enc_peers(b.drop_first())) by {
                assert forall|t: int| 0 <= t < enc_peers(a.drop_first()).len() implies enc_peers(
                    a.drop_first(),
                )[t] == enc_peers(b.drop_first())[t] by {
                    assert(xa[t + 1] == enc_peers(a.drop_first())[t]);
                    assert(xb[t + 1] == enc_peers(b.drop_first())[t]);
                }
            }
            lemma_enc_peers_inj(a.drop_first(), b.drop_first());
            assert(a.len() == b.len());
            assert forall|t: int| 0 <= t < a.len() implies a[t] == b[t] by {
                if t > 0 {
                    assert(a[t] == a.drop_first()[t - 1]);
                    assert(b[t] == b.drop_first()[t - 1]);
                }
            }
            assert(a =~= b);
        }
    }
}

/// The canonical encoding is injective: two sessions with the same stored
/// form hold the same peers in the same order. Together with the decoder's
/// contract this gives the round trip: encoding then decoding a session of
/// any length yields an identical ordered sequence of peers.
pub proof fn lemma_enc_session_injective(a: Seq<PeerView>, b: Seq<PeerView>)
    requires
        enc_session(a) == enc_session(b),
    ensures
        a == b,
{
    assert(enc_session(a).len() == 2 + enc_peers(a).len());
    assert(enc_session(b).len() == 2 + enc_peers(b).len());
    assert(enc_peers(a).len() == enc_peers(b).len());
    assert(enc_peers(a) =~= enc_peers(b)) by {
        assert forall|t: int| 0 <= t < enc_peers(a).len() implies enc_peers(a)[t] == enc_peers(
            b,
        )[t] by {
            assert(enc_session(a)[t + 1] == enc_peers(a)[t]);
            assert(enc_session(b)[t + 1] == enc_peers(b)[t]);
        }
    }
    lemma_enc_peers_inj(a, b);
}

/// Appends the quoted, escaped form of `s` to `out`.
fn push_quoted(out: &mut Vec<char>, s: &str)
    ensures
        final(out)@ == old(out)@ + quoted(s@),
{
    let ghost out0 = out@;
    out.push('"');
    let n = s.unicode_len();
    let mut i: usize = 0;
    while i < n
        invariant
            0 <= i <= n,
            n == s@.len(),
            out@ == out0 + seq!['"'] + esc(s@.subrange(0, i as int)),
        decreases n - i,
    {
        let c = s.get_char(i);
        proof {
            assert(s@.subrange(0, i as int).push(c) =~= s@.subrange(0, i + 1));
            lemma_esc_snoc(s@.subrange(0, i as int), c);
        }
        if c == '"' || c == '\\' {
            out.push('\\');
            out.push(c);
        } else {
            out.push(c);
        }
        proof {
            assert(out@ =~= out0 + seq!['"'] + esc(s@.subrange(0, i + 1)));
        }
        i += 1;
    }
    proof {
        assert(s@.subrange(0, n as int) =~= s@);
    }
    out.push('"');
    proof {
        assert(out@ =~= out0 + quoted(s@));
    }
}

/// Appends the encoding of one peer record to `out`.
#[verifier::rlimit(60)]
fn push_peer(out: &mut Vec<char>, p: &Peer)
    ensures
        final(out)@ == old(out)@ + enc_peer(p@),
{
    let ghost out0 = out@;
    out.push('{');
    out.push('"');
    out.push('p');
    out.push('e');
    out.push('e');
    out.push('r');
    out.push('_');
    out.push('i');
    out.push('d');
    out.push('"');
    out.push(':');
    proof {
        assert(out@ =~= out0 + peer_id_label());
    }
    push_quoted(out, p.peer_id().as_str());
    out.push(',');
    out.push('"');
    out.push('o');
    out.push('f');
    out.push('f');
    out.push('e');
    out.push('r');
    out.push('"');
    out.push(':');
    out.push('{');
    out.push('"');
    out.push('t');
    out.push('y');
    out.push('p');
    out.push('e');
    out.push('"');
    out.push(':');
    proof {
        assert(out@ =~= out0 + peer_id_label() + quoted(p@.peer_id) + offer_label());
    }
    push_quoted(out, p.offer().offer_type().as_str());
    out.push(',');
    out.push('"');
    out.push('s');
    out.push('d');
    out.push('p');
    out.push('"');
    out.push(':');
    push_quoted(out, p.offer().sdp().as_str());
    out.push('}');
    out.push('}');
    proof {
        assert(out@ =~= out0 + enc_peer(p@));
    }
}

/// Encodes a session into its canonical stored form.
pub fn encode_session(session: &Session) -> (r: String)
    ensures
        r@ == enc_session(session.deep_view()),
{
    let mut out: Vec<char> = Vec::new();
    out.push('[');
    let n = session.len();
    let mut i: usize = 0;
    while i < n
        invariant
            0 <= i <= n,
            n == session@.len(),
            session.deep_view().len() == n,
            out@ == seq!['['] + enc_peers(session.deep_view().subrange(0, i as int)),
        decreases n - i,
    {
        if i > 0 {
            out.push(',');
        }
        push_peer(&mut out, &session[i]);
        proof {
            let ghost dv = session.deep_view();
            assert(dv[i as int] == session@[i as int]@);
            assert(dv.subrange(0, i as int).push(dv[i as int]) =~= dv.subrange(0, i + 1));
            lemma_enc_peers_snoc(dv.subrange(0, i as int), dv[i as int]);
            assert(out@ =~= seq!['['] + enc_peers(dv.subrange(0, i + 1)));
        }
        i += 1;
    }
    out.push(']');
    proof {
        assert(session.deep_view().subrange(0, n as int) =~= session.deep_view());
        assert(out@ =~= enc_session(session.deep_view()));
    }
    chars_to_string(&out)
}

} // verus!
