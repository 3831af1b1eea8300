//! The hierarchical path type and its byte codec. A path is a sequence of
//! segments; on the wire the segments stand joined by a separator byte. A
//! segment is well formed when it is non-empty and free of the separator, so
//! that joining and splitting invert each other.

use vstd::prelude::*;

verus! {

/// The byte that separates path segments on the wire (an ASCII slash).
pub const SEPARATOR: u8 = 47;

/// A hierarchical address: a sequence of byte segments, root when empty.
/// Validity is not an invariant of the type; it is checked when the path is
/// turned into bytes, and a path read from bytes is always well formed.
#[derive(Debug)]
pub struct Path {
    pub segments: Vec<Vec<u8>>,
}

impl View for Path {
    type V = Seq<Seq<u8>>;

    open spec fn view(&self) -> Seq<Seq<u8>> {
        self.segments.deep_view()
    }
}

/// A well-formed segment: non-empty and free of the separator byte.
pub open spec fn seg_wf(s: Seq<u8>) -> bool {
    s.len() > 0 && forall|i: int| 0 <= i < s.len() ==> s[i] != SEPARATOR
}

/// A well-formed path: every segment is well formed.
pub open spec fn path_wf(ss: Seq<Seq<u8>>) -> bool {
    forall|i: int| 0 <= i < ss.len() ==> seg_wf(#[trigger] ss[i])
}

/// The byte encoding of a path: its segments joined by the separator.
pub open spec fn join(ss: Seq<Seq<u8>>) -> Seq<u8>
    decreases ss.len(),
{
    if ss.len() == 0 {
        Seq::empty()
    } else if ss.len() == 1 {
        ss[0]
    } else {
        ss[0] + seq![SEPARATOR] + join(ss.subrange(1, ss.len() as int))
    }
}

/// Splits a buffer at each separator, `cur` being the piece read so far.
pub open spec fn split_from(b: Seq<u8>, cur: Seq<u8>) -> Seq<Seq<u8>>
    decreases b.len(),
{
    if b.len() == 0 {
        seq![cur]
    } else if b[0] == SEPARATOR {
        seq![cur] + split_from(b.subrange(1, b.len() as int), Seq::empty())
    } else {
        split_from(b.subrange(1, b.len() as int), cur.push(b[0]))
    }
}

/// What decoding a buffer yields: the split segments, or nothing when a
/// segment would be empty. An empty buffer is the root path.
pub open spec fn path_parse(b: Seq<u8>) -> Option<Seq<Seq<u8>>> {
    if b.len() == 0 {
        Some(Seq::empty())
    } else {
        let pieces = split_from(b, Seq::empty());
        if forall|i: int| 0 <= i < pieces.len() ==> (#[trigger] pieces[i]).len() > 0 {
            Some(pieces)
        } else {
            None
        }
    }
}

/// Splitting walks through a separator-free prefix, gathering it into `cur`.
proof fn lemma_split_prefix(s: Seq<u8>, b: Seq<u8>, cur: Seq<u8>)
    requires
        forall|i: int| 0 <= i < s.len() ==> s[i] != SEPARATOR,
    ensures
        split_from(s + b, cur) == split_from(b, cur + s),
    decreases s.len(),
{
    if s.len() == 0 {
        assert(s + b =~= b);
        assert(cur + s =~= cur);
    } else {
        assert((s + b)[0] == s[0]);
        assert((s + b).subrange(1, (s + b).len() as int) =~= s.subrange(1, s.len() as int) + b);
        lemma_split_prefix(s.subrange(1, s.len() as int), b, cur.push(s[0]));
        assert(cur.push(s[0]) + s.subrange(1, s.len() as int) =~= cur + s);
    }
}

/// Splitting at a leading separator closes the piece read so far.
proof fn lemma_split_sep(b: Seq<u8>, cur: Seq<u8>)
    ensures
        split_from(seq![SEPARATOR] + b, cur) == seq![cur] + split_from(b, Seq::empty()),
{
    let x = seq![SEPARATOR] + b;
    assert(x[0] == SEPARATOR);
    assert(x.subrange(1, x.len() as int) =~= b);
}

/// Splitting the join of well-formed segments yields them back.
proof fn lemma_join_split(ss: Seq<Seq<u8>>)
    requires
        path_wf(ss),
        ss.len() > 0,
    ensures
        split_from(join(ss), Seq::empty()) == ss,
    decreases ss.len(),
{
    if ss.len() == 1 {
        assert(join(ss) == ss[0]);
        assert(ss[0] + Seq::<u8>::empty() =~= ss[0]);
        lemma_split_prefix(ss[0], Seq::empty(), Seq::empty());
        assert(Seq::<u8>::empty() + ss[0] =~= ss[0]);
        assert(split_from(Seq::<u8>::empty(), ss[0]) == seq![ss[0]]);
        assert(seq![ss[0]] =~= ss);
    } else {
        let tail = ss.subrange(1, ss.len() as int);
        assert(join(ss) =~= ss[0] + (seq![SEPARATOR] + join(tail)));
        lemma_split_prefix(ss[0], seq![SEPARATOR] + join(tail), Seq::empty());
        assert(Seq::<u8>::empty() + ss[0] =~= ss[0]);
        lemma_split_sep(join(tail), ss[0]);
        assert(path_wf(tail)) by {
            assert(forall|i: int| 0 <= i < tail.len() ==> tail[i] == ss[i + 1]);
        }
        lemma_join_split(tail);
        assert(seq![ss[0]] + tail =~= ss);
    }
}

/// Decoding inverts encoding: parsing the join of a well-formed path gives
/// back exactly its segments.
pub proof fn lemma_path_roundtrip(ss: Seq<Seq<u8>>)
    requires
        path_wf(ss),
    ensures
        path_parse(join(ss)) == Some(ss),
{
    if ss.len() == 0 {
        assert(join(ss) == Seq::<u8>::empty());
        assert(Seq::<Seq<u8>>::empty() =~= ss);
    } else {
        if ss.len() == 1 {
            assert(join(ss) == ss[0]);
            assert(seg_wf(ss[0]));
        } else {
            assert(join(ss) =~= ss[0] + (seq![SEPARATOR] + join(ss.subrange(1, ss.len() as int))));
            assert(seg_wf(ss[0]));
            assert(join(ss).len() >= ss[0].len());
        }
        assert(join(ss).len() > 0);
        lemma_join_split(ss);
        let pieces = split_from(join(ss), Seq::empty());
        assert(forall|i: int| 0 <= i < pieces.len() ==> (#[trigger] pieces[i]).len() > 0) by {
            assert(forall|i: int| 0 <= i < ss.len() ==> seg_wf(#[trigger] ss[i]));
        }
    }
}

/// Joining one more segment appends a separator and the segment.
proof fn lemma_join_push(ss: Seq<Seq<u8>>, x: Seq<u8>)
    ensures
        join(ss.push(x)) == if ss.len() == 0 {
            x
        } else {
            join(ss) + seq![SEPARATOR] + x
        },
    decreases ss.len(),
{
    let p = ss.push(x);
    if ss.len() == 0 {
        assert(p.len() == 1 && p[0] == x);
    } else if ss.len() == 1 {
        assert(p.len() == 2);
        assert(p.subrange(1, 2) =~= seq![x]);
        assert(join(p.subrange(1, 2)) == x);
        assert(join(p) == p[0] + seq![SEPARATOR] + x);
        assert(p[0] == ss[0] && join(ss) == ss[0]);
    } else {
        assert(p.subrange(1, p.len() as int) =~= ss.subrange(1, ss.len() as int).push(x));
        lemma_join_push(ss.subrange(1, ss.len() as int), x);
        assert(join(p) == p[0] + seq![SEPARATOR] + (join(ss.subrange(1, ss.len() as int))
            + seq![SEPARATOR] + x));
        assert(p[0] + seq![SEPARATOR] + (join(ss.subrange(1, ss.len() as int)) + seq![SEPARATOR]
            + x) =~= (ss[0] + seq![SEPARATOR] + join(ss.subrange(1, ss.len() as int)))
            + seq![SEPARATOR] + x);
    }
}

impl Path {
    /// The root path, with no segments.
    pub fn new() -> (r: Path)
        ensures
            r@ == Seq::<Seq<u8>>::empty(),
    {
        let r = Path { segments: Vec::new() };
        assert(r@ =~= Seq::<Seq<u8>>::empty());
        r
    }

    /// Decodes a path from its byte form, splitting at each separator; yields
    /// nothing when a segment would be empty, exactly as [`path_parse`] says.
    pub fn from_bytes(bytes: &[u8]) -> (r: Option<Path>)
        ensures
            match r {
                Some(p) => path_parse(bytes@) == Some(p@) && path_wf(p@),
                None => path_parse(bytes@) is None,
            },
    {
        if bytes.len() == 0 {
            let p = Path { segments: Vec::new() };
            assert(p@ =~= Seq::<Seq<u8>>::empty());
            return Some(p);
        }
        let ghost whole = split_from(bytes@, Seq::empty());
        let mut segs: Vec<Vec<u8>> = Vec::new();
        let mut cur: Vec<u8> = Vec::new();
        let mut i: usize = 0;
        proof {
            assert(segs.deep_view() =~= Seq::<Seq<u8>>::empty());
            assert(bytes@.subrange(0, bytes@.len() as int) =~= bytes@);
            assert(segs.deep_view() + split_from(bytes@, Seq::empty()) =~~= split_from(
                bytes@,
                Seq::empty(),
            ));
        }
        while i < bytes.len()
            invariant
                i <= bytes@.len(),
                bytes@.len() > 0,
                whole == split_from(bytes@, Seq::empty()),
                whole == segs.deep_view() + split_from(
                    bytes@.subrange(i as int, bytes@.len() as int),
                    cur@,
                ),
                forall|k: int|
                    0 <= k < segs.deep_view().len() ==> seg_wf(#[trigger] segs.deep_view()[k]),
                forall|t: int| 0 <= t < cur@.len() ==> cur@[t] != SEPARATOR,
            decreases bytes@.len() - i,
        {
            let ghost rest = bytes@.subrange(i as int, bytes@.len() as int);
            let ghost rest1 = bytes@.subrange(i as int + 1, bytes@.len() as int);
            proof {
                assert(rest[0] == bytes@[i as int]);
                assert(rest.subrange(1, rest.len() as int) =~= rest1);
            }
            let x = bytes[i];
            if x == SEPARATOR {
                if cur.len() == 0 {
                    proof {
                        assert(split_from(rest, cur@) == seq![cur@] + split_from(
                            rest1,
                            Seq::empty(),
                        ));
                        assert(whole[segs.deep_view().len() as int] == cur@);
                        assert(whole[segs.deep_view().len() as int].len() == 0);
                    }
                    return None;
                }
                proof {
                    assert(split_from(rest, cur@) == seq![cur@] + split_from(rest1, Seq::empty()));
                }
                let ghost old_dv = segs.deep_view();
                let ghost cur_v = cur@;
                segs.push(cur);
                cur = Vec::new();
                proof {
                    assert(segs.deep_view() =~~= old_dv.push(cur_v));
                    assert(old_dv + (seq![cur_v] + split_from(rest1, Seq::empty()))
                        =~~= old_dv.push(cur_v) + split_from(rest1, Seq::empty()));
                    assert(whole == segs.deep_view() + split_from(rest1, cur@));
                }
            } else {
                let ghost cur_before = cur@;
                cur.push(x);
                proof {
                    assert(split_from(rest, cur_before) == split_from(rest1, cur@));
                }
            }
            i += 1;
        }
        proof {
            assert(bytes@.subrange(i as int, bytes@.len() as int) =~= Seq::<u8>::empty());
            assert(split_from(Seq::<u8>::empty(), cur@) == seq![cur@]);
        }
        if cur.len() == 0 {
            proof {
                assert(whole[segs.deep_view().len() as int] == cur@);
                assert(whole[segs.deep_view().len() as int].len() == 0);
            }
            return None;
        }
        let ghost old_dv = segs.deep_view();
        let ghost cur_v = cur@;
        segs.push(cur);
        let p = Path { segments: segs };
        proof {
            assert(p@ =~~= old_dv.push(cur_v));
            assert(old_dv + seq![cur_v] =~~= old_dv.push(cur_v));
            assert(p@ == whole);
            assert(forall|k: int| 0 <= k < p@.len() ==> (#[trigger] p@[k]).len() > 0) by {
                assert(forall|k: int| 0 <= k < old_dv.len() ==> seg_wf(#[trigger] old_dv[k]));
                assert(p@[p@.len() - 1] == cur_v);
            }
            assert(path_wf(p@)) by {
                assert(forall|k: int| 0 <= k < old_dv.len() ==> seg_wf(#[trigger] old_dv[k]));
                assert(seg_wf(cur_v));
            }
        }
        Some(p)
    }

    /// Encodes the path by joining its segments with the separator; yields
    /// nothing when a segment is empty or holds the separator byte.
    pub fn to_bytes(&self) -> (r: Option<Vec<u8>>)
        ensures
            match r {
                Some(out) => path_wf(self@) && out@ == join(self@),
                None => !path_wf(self@),
            },
    {
        let n = self.segments.len();
        let mut out: Vec<u8> = Vec::new();
        let mut i: usize = 0;
        proof {
            assert(self@.subrange(0, 0) =~= Seq::<Seq<u8>>::empty());
        }
        while i < n
            invariant
                i <= n,
                n == self.segments@.len(),
                forall|k: int| 0 <= k < i ==> seg_wf(#[trigger] self@[k]),
                out@ == join(self@.subrange(0, i as int)),
            decreases n - i,
        {
            let seg = &self.segments[i];
            proof {
                assert(seg@ == self@[i as int]);
            }
            if seg.len() == 0 {
                proof {
                    assert(!seg_wf(self@[i as int]));
                }
                return None;
            }
            if i > 0 {
                out.push(SEPARATOR);
            }
            let ghost base = out@;
            let mut j: usize = 0;
            while j < seg.len()
                invariant
                    j <= seg@.len(),
                    i < n,
                    n == self.segments@.len(),
                    seg@ == self@[i as int],
                    out@ == base + seg@.subrange(0, j as int),
                    forall|t: int| 0 <= t < j ==> seg@[t] != SEPARATOR,
                decreases seg@.len() - j,
            {
                if seg[j] == SEPARATOR {
                    proof {
                        assert(!seg_wf(self@[i as int]));
                    }
                    return None;
                }
                out.push(seg[j]);
                proof {
                    assert(base + seg@.subrange(0, j as int) + seq![seg@[j as int]] =~= base
                        + seg@.subrange(0, j as int + 1));
                }
                j += 1;
            }
            proof {
                assert(seg@.subrange(0, seg@.len() as int) =~= seg@);
                assert(seg_wf(self@[i as int]));
                let pre = self@.subrange(0, i as int);
                lemma_join_push(pre, self@[i as int]);
                assert(pre.push(self@[i as int]) =~= self@.subrange(0, i as int + 1));
                if i == 0 {
                    assert(base + seg@ =~= seg@);
                    assert(out@ == join(self@.subrange(0, i as int + 1)));
                } else {
                    assert(join(pre) + seq![SEPARATOR] + seg@ =~= base + seg@);
                    assert(out@ == join(self@.subrange(0, i as int + 1)));
                }
            }
            i += 1;
        }
        proof {
            assert(self@.subrange(0, n as int) =~= self@);
        }
        Some(out)
    }
}

} // verus!
