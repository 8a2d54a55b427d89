//! Geometry command-stream encoder and decoder for MVT.
//!
//! A geometry is encoded as a sequence of `u32` words: command words
//! (low 3 bits are the command id, the remaining bits the repeat count)
//! interleaved with pairs of zig-zag encoded coordinate deltas relative
//! to a running cursor that starts at `(0, 0)`.

use vstd::prelude::*;

verus! {

/// Command id for MoveTo.
pub const GEOM_COMMAND_MOVE_TO: u32 = 1;
/// Command id for LineTo.
pub const GEOM_COMMAND_LINE_TO: u32 = 2;
/// Command id for ClosePath.
pub const GEOM_COMMAND_CLOSE_PATH: u32 = 7;

/// MoveTo command word with count 1: `(1 << 3) | 1`.
pub const GEOM_COMMAND_MOVE_TO_WITH_COUNT1: u32 = 9;
/// ClosePath command word with count 1: `(1 << 3) | 7`.
pub const GEOM_COMMAND_CLOSE_PATH_WITH_COUNT1: u32 = 15;

/// Largest repeat count that fits in the 29-bit count field of a command word.
pub const MAX_COMMAND_COUNT: u32 = 0x1FFF_FFFF;

/// Zig-zag encoding of a signed 32-bit value: small magnitudes map to
/// small unsigned values (`0 -> 0`, `-1 -> 1`, `1 -> 2`, `-2 -> 3`, ...).
pub open spec fn zigzag_s(v: i32) -> u32 {
    if v >= 0 {
        (2 * v) as u32
    } else {
        (-2 * (v as int) - 1) as u32
    }
}

/// Zig-zag decoding, the inverse of [`zigzag_s`].
pub open spec fn unzigzag_s(u: u32) -> i32 {
    if u % 2 == 0 {
        (u / 2) as i32
    } else {
        (-((u as int + 1) / 2)) as i32
    }
}

/// Zig-zag round-trip: decoding an encoded value gives the value back,
/// for every representable `i32`.
pub proof fn lemma_zigzag_roundtrip(v: i32)
    ensures
        unzigzag_s(zigzag_s(v)) == v,
{
}

/// A point in tile-local integer coordinates.
pub type Point = (i32, i32);

/// The delta from `a` to `b` fits in an `i32` in both components.
pub open spec fn delta_fits(a: Point, b: Point) -> bool {
    &&& i32::MIN <= b.0 - a.0 <= i32::MAX
    &&& i32::MIN <= b.1 - a.1 <= i32::MAX
}

/// The delta into `pts[i]` (from `start` when `i == 0`, else from
/// `pts[i - 1]`) fits in an `i32`.
pub open spec fn chain_idx_ok(start: Point, pts: Seq<Point>, i: int) -> bool {
    delta_fits(
        if i == 0 {
            start
        } else {
            pts[i - 1]
        },
        pts[i],
    )
}

/// Every step of the chain `start, pts[0], pts[1], ...` has a delta that
/// fits in an `i32`.
pub open spec fn chain_fits(start: Point, pts: Seq<Point>) -> bool {
    forall|i: int| 0 <= i < pts.len() ==> #[trigger] chain_idx_ok(start, pts, i)
}

/// Removes from `pts` every point equal to the point before it (`prev`
/// standing before `pts[0]`): the encoder's zero-delta elision.
pub open spec fn elide(prev: Point, pts: Seq<Point>) -> Seq<Point>
    decreases pts.len(),
{
    if pts.len() == 0 {
        Seq::empty()
    } else if pts[0] == prev {
        elide(prev, pts.drop_first())
    } else {
        seq![pts[0]] + elide(pts[0], pts.drop_first())
    }
}

/// The points that survive elision: the first point always, then every
/// later point that differs from its predecessor.
pub open spec fn kept_pts(pts: Seq<Point>) -> Seq<Point>
    recommends
        pts.len() > 0,
{
    seq![pts[0]] + elide(pts[0], pts.drop_first())
}

/// The coordinate words for the chain `prev -> pts[0] -> pts[1] -> ...`:
/// one zig-zag encoded delta pair per point.
pub open spec fn coord_words(prev: Point, pts: Seq<Point>) -> Seq<u32>
    decreases pts.len(),
{
    if pts.len() == 0 {
        Seq::empty()
    } else {
        seq![
            zigzag_s((pts[0].0 - prev.0) as i32),
            zigzag_s((pts[0].1 - prev.1) as i32),
        ] + coord_words(pts[0], pts.drop_first())
    }
}

/// A command word: the command id in the low 3 bits, the repeat count above.
pub open spec fn cmd_word(cmd: u32, count: u32) -> u32 {
    cmd | (count << 3)
}

/// The words that encoding a point set appends to the buffer.
pub open spec fn points_words(cursor: Point, pts: Seq<Point>) -> Seq<u32> {
    if pts.len() == 0 {
        Seq::empty()
    } else {
        let k = kept_pts(pts);
        seq![cmd_word(GEOM_COMMAND_MOVE_TO, k.len() as u32)] + coord_words(cursor, k)
    }
}

/// The words that encoding a linestring or ring appends to the buffer:
/// a MoveTo of count 1, a LineTo run (a single zero delta when every
/// vertex after the first was elided), and a ClosePath for rings.
pub open spec fn path_words(cursor: Point, pts: Seq<Point>, close: bool) -> Seq<u32> {
    if pts.len() == 0 {
        Seq::empty()
    } else {
        let k = kept_pts(pts);
        let tail = k.drop_first();
        let lineto = if tail.len() == 0 {
            seq![cmd_word(GEOM_COMMAND_LINE_TO, 1), 0u32, 0u32]
        } else {
            seq![cmd_word(GEOM_COMMAND_LINE_TO, tail.len() as u32)] + coord_words(k[0], tail)
        };
        seq![
            GEOM_COMMAND_MOVE_TO_WITH_COUNT1,
            zigzag_s((pts[0].0 - cursor.0) as i32),
            zigzag_s((pts[0].1 - cursor.1) as i32),
        ] + lineto + if close {
            seq![GEOM_COMMAND_CLOSE_PATH_WITH_COUNT1]
        } else {
            Seq::empty()
        }
    }
}

/// Elision of an empty sequence is empty.
pub proof fn lemma_elide_empty(prev: Point)
    ensures
        elide(prev, Seq::<Point>::empty()) == Seq::<Point>::empty(),
{
}

/// Coordinate words of an empty sequence are empty.
pub proof fn lemma_coord_words_empty(prev: Point)
    ensures
        coord_words(prev, Seq::<Point>::empty()) == Seq::<u32>::empty(),
{
}

/// Coordinate words of a single point: one zig-zag encoded delta pair.
pub proof fn lemma_coord_words_single(prev: Point, p: Point)
    ensures
        coord_words(prev, seq![p]) == seq![
            zigzag_s((p.0 - prev.0) as i32),
            zigzag_s((p.1 - prev.1) as i32),
        ],
{
    assert(seq![p].drop_first() =~= Seq::<Point>::empty());
    lemma_coord_words_empty(p);
    assert(coord_words(prev, seq![p]) =~= seq![
        zigzag_s((p.0 - prev.0) as i32),
        zigzag_s((p.1 - prev.1) as i32),
    ]);
}

/// The last point of `elide(prev, s)` is the last point of `s` itself:
/// a dropped trailing point equals the point kept before it.
pub proof fn lemma_elide_last(prev: Point, s: Seq<Point>)
    ensures
        elide(prev, s).len() == 0 ==> (s.len() == 0 || s.last() == prev),
        elide(prev, s).len() > 0 ==> s.len() > 0 && elide(prev, s).last() == s.last(),
    decreases s.len(),
{
    if s.len() > 0 {
        if s[0] == prev {
            lemma_elide_last(prev, s.drop_first());
        } else {
            lemma_elide_last(s[0], s.drop_first());
        }
        if s.len() == 1 {
            assert(s.drop_first().len() == 0);
        } else {
            assert(s.drop_first().last() == s.last());
        }
    }
}

/// Appending one point to the input extends the elided sequence by that
/// point, unless it equals the last input point, in which case it is dropped.
pub proof fn lemma_elide_push(prev: Point, s: Seq<Point>, x: Point)
    ensures
        elide(prev, s.push(x)) == if x == (if s.len() == 0 {
            prev
        } else {
            s.last()
        }) {
            elide(prev, s)
        } else {
            elide(prev, s).push(x)
        },
    decreases s.len(),
{
    if s.len() == 0 {
        assert(s.push(x).drop_first() =~= Seq::<Point>::empty());
        assert(s =~= Seq::<Point>::empty());
        lemma_elide_empty(prev);
        lemma_elide_empty(x);
        if x == prev {
            assert(elide(prev, s.push(x)) =~= elide(prev, s));
        } else {
            assert(elide(prev, s.push(x)) =~= elide(prev, s).push(x));
        }
    } else {
        assert(s.push(x).drop_first() =~= s.drop_first().push(x));
        assert(s.push(x)[0] == s[0]);
        let tail_last = if s.drop_first().len() == 0 {
            s[0]
        } else {
            s.drop_first().last()
        };
        assert(s.last() == if s.len() == 1 {
            s[0]
        } else {
            s.drop_first().last()
        });
        if s[0] == prev {
            lemma_elide_push(prev, s.drop_first(), x);
            if s.drop_first().len() == 0 {
                // the comparison point inside the recursion is prev == s[0] == s.last()
                assert(s.last() == prev);
            }
            if x != s.last() {
                assert(elide(prev, s.push(x)) =~= elide(prev, s).push(x));
            }
        } else {
            lemma_elide_push(s[0], s.drop_first(), x);
            if x == s.last() {
                assert(elide(s[0], s.drop_first().push(x)) == elide(s[0], s.drop_first()));
                assert(elide(prev, s.push(x)) =~= elide(prev, s));
            } else {
                assert(elide(s[0], s.drop_first().push(x)) == elide(
                    s[0],
                    s.drop_first(),
                ).push(x));
                assert(elide(prev, s.push(x)) =~= elide(prev, s).push(x));
            }
        }
    }
}

/// `kept_pts` of a non-empty input: starts at the first input point and
/// ends at (the value of) the last input point.
pub proof fn lemma_kept_shape(t: Seq<Point>)
    requires
        t.len() > 0,
    ensures
        kept_pts(t).len() >= 1,
        kept_pts(t)[0] == t[0],
        kept_pts(t).last() == t.last(),
        kept_pts(t).len() <= t.len(),
    decreases t.len(),
{
    lemma_elide_last(t[0], t.drop_first());
    lemma_elide_len(t[0], t.drop_first());
    if elide(t[0], t.drop_first()).len() == 0 {
        if t.len() == 1 {
            assert(kept_pts(t).last() == t[0]);
        } else {
            assert(t.drop_first().last() == t.last());
            assert(t.last() == t[0]);
        }
    } else {
        assert(kept_pts(t).last() == elide(t[0], t.drop_first()).last());
        assert(t.drop_first().last() == t.last());
    }
}

/// Elision never lengthens a sequence.
pub proof fn lemma_elide_len(prev: Point, s: Seq<Point>)
    ensures
        elide(prev, s).len() <= s.len(),
    decreases s.len(),
{
    if s.len() > 0 {
        if s[0] == prev {
            lemma_elide_len(prev, s.drop_first());
        } else {
            lemma_elide_len(s[0], s.drop_first());
        }
    }
}

/// Appending one point to the input either leaves `kept_pts` unchanged
/// (zero delta) or appends that point.
pub proof fn lemma_kept_push(t: Seq<Point>, x: Point)
    requires
        t.len() > 0,
    ensures
        kept_pts(t.push(x)) == if x == t.last() {
            kept_pts(t)
        } else {
            kept_pts(t).push(x)
        },
{
    assert(t.push(x)[0] == t[0]);
    assert(t.push(x).drop_first() =~= t.drop_first().push(x));
    lemma_elide_push(t[0], t.drop_first(), x);
    if t.len() == 1 {
        assert(t.last() == t[0]);
    } else {
        assert(t.drop_first().last() == t.last());
    }
    if x != t.last() {
        assert(kept_pts(t.push(x)) =~= kept_pts(t).push(x));
    } else {
        assert(kept_pts(t.push(x)) =~= kept_pts(t));
    }
}

/// Appending one point appends exactly one zig-zag encoded delta pair to
/// the coordinate words.
pub proof fn lemma_coord_words_push(prev: Point, s: Seq<Point>, x: Point)
    ensures
        coord_words(prev, s.push(x)) == coord_words(prev, s) + seq![
            zigzag_s((x.0 - (if s.len() == 0 {
                prev
            } else {
                s.last()
            }).0) as i32),
            zigzag_s((x.1 - (if s.len() == 0 {
                prev
            } else {
                s.last()
            }).1) as i32),
        ],
    decreases s.len(),
{
    if s.len() == 0 {
        assert(s =~= Seq::<Point>::empty());
        assert(s.push(x) =~= seq![x]);
        lemma_coord_words_single(prev, x);
        lemma_coord_words_empty(prev);
        assert(coord_words(prev, s.push(x)) =~= coord_words(prev, s) + seq![
            zigzag_s((x.0 - prev.0) as i32),
            zigzag_s((x.1 - prev.1) as i32),
        ]);
    } else {
        assert(s.push(x).drop_first() =~= s.drop_first().push(x));
        assert(s.push(x)[0] == s[0]);
        lemma_coord_words_push(s[0], s.drop_first(), x);
        if s.len() == 1 {
            assert(s.last() == s[0]);
        } else {
            assert(s.drop_first().last() == s.last());
        }
        assert(coord_words(prev, s.push(x)) =~= coord_words(prev, s) + seq![
            zigzag_s((x.0 - (if s.len() == 0 {
                prev
            } else {
                s.last()
            }).0) as i32),
            zigzag_s((x.1 - (if s.len() == 0 {
                prev
            } else {
                s.last()
            }).1) as i32),
        ]);
    }
}

/// Each point contributes exactly two coordinate words.
pub proof fn lemma_coord_words_len(prev: Point, s: Seq<Point>)
    ensures
        coord_words(prev, s).len() == 2 * s.len(),
    decreases s.len(),
{
    if s.len() > 0 {
        lemma_coord_words_len(s[0], s.drop_first());
    }
}

/// Patching the provisional MoveTo count yields exactly the point-set
/// encoding of the input.
proof fn lemma_points_patch(buf0: Seq<u32>, c0: Point, pts: Seq<Point>, count: u32, bufnow: Seq<u32>, w: u32)
    requires
        pts.len() > 0,
        pts.len() <= MAX_COMMAND_COUNT,
        count == kept_pts(pts).len(),
        bufnow == buf0 + seq![GEOM_COMMAND_MOVE_TO_WITH_COUNT1] + coord_words(c0, kept_pts(pts)),
        w == GEOM_COMMAND_MOVE_TO | count << 3,
    ensures
        bufnow.update(buf0.len() as int, w) == buf0 + points_words(c0, pts),
{
    let k = kept_pts(pts);
    assert(bufnow.update(buf0.len() as int, w) =~= buf0 + seq![w] + coord_words(c0, k));
    assert(k.len() as u32 == count);
    assert(points_words(c0, pts) == seq![cmd_word(GEOM_COMMAND_MOVE_TO, count)] + coord_words(
        c0,
        k,
    ));
    assert(buf0 + seq![w] + coord_words(c0, k) =~= buf0 + points_words(c0, pts));
}

/// Patching the provisional LineTo count yields exactly the path encoding
/// of the input (without the ClosePath word).
proof fn lemma_path_patch(buf0: Seq<u32>, c0: Point, pts: Seq<Point>, count: u32, bufnow: Seq<u32>, w: u32)
    requires
        pts.len() > 0,
        pts.len() <= MAX_COMMAND_COUNT,
        ({
            let k = kept_pts(pts);
            let tail = k.drop_first();
            &&& k[0] == pts[0]
            &&& k.len() >= 1
            &&& k.len() <= pts.len()
            &&& if tail.len() == 0 {
                count == 1 && bufnow == buf0 + seq![
                    GEOM_COMMAND_MOVE_TO_WITH_COUNT1,
                    zigzag_s((pts[0].0 - c0.0) as i32),
                    zigzag_s((pts[0].1 - c0.1) as i32),
                    GEOM_COMMAND_LINE_TO,
                ] + seq![0u32, 0u32]
            } else {
                count == tail.len() && bufnow == buf0 + seq![
                    GEOM_COMMAND_MOVE_TO_WITH_COUNT1,
                    zigzag_s((pts[0].0 - c0.0) as i32),
                    zigzag_s((pts[0].1 - c0.1) as i32),
                    GEOM_COMMAND_LINE_TO,
                ] + coord_words(pts[0], tail)
            }
        }),
        w == GEOM_COMMAND_LINE_TO | count << 3,
    ensures
        bufnow.update(buf0.len() as int + 3, w) == buf0 + path_words(c0, pts, false),
{
    let k = kept_pts(pts);
    let tail = k.drop_first();
    if tail.len() == 0 {
        assert(w == cmd_word(GEOM_COMMAND_LINE_TO, 1));
        assert(bufnow.update(buf0.len() as int + 3, w) =~= buf0 + path_words(c0, pts, false));
    } else {
        assert(w == cmd_word(GEOM_COMMAND_LINE_TO, tail.len() as u32));
        assert(bufnow.update(buf0.len() as int + 3, w) =~= buf0 + path_words(c0, pts, false));
    }
}

/// A closed path is the open path followed by one ClosePath word.
proof fn lemma_path_words_close(c0: Point, pts: Seq<Point>)
    requires
        pts.len() > 0,
    ensures
        path_words(c0, pts, true) == path_words(c0, pts, false).push(
            GEOM_COMMAND_CLOSE_PATH_WITH_COUNT1,
        ),
{
    assert(path_words(c0, pts, true) =~= path_words(c0, pts, false).push(
        GEOM_COMMAND_CLOSE_PATH_WITH_COUNT1,
    ));
}

/// Utility for encoding MVT geometries.
///
/// The cursor persists across calls on the same encoder, so several
/// geometries added in sequence share one running delta chain.
pub struct GeometryEncoder {
    buf: Vec<u32>,
    prev_x: i32,
    prev_y: i32,
}

impl GeometryEncoder {
    /// The words emitted so far.
    pub closed spec fn output_s(self) -> Seq<u32> {
        self.buf@
    }

    /// The current cursor position.
    pub closed spec fn cursor_s(self) -> Point {
        (self.prev_x, self.prev_y)
    }

    /// Creates a new encoder with an empty buffer and the cursor at the origin.
    pub fn new() -> (r: Self)
        ensures
            r.output_s() == Seq::<u32>::empty(),
            r.cursor_s() == ((0i32, 0i32)),
    {
        Self { buf: Vec::new(), prev_x: 0, prev_y: 0 }
    }

    /// Consumes the encoder and returns the encoded geometry.
    pub fn into_vec(self) -> (r: Vec<u32>)
        ensures
            r@ == self.output_s(),
    {
        self.buf
    }

    /// Adds points: one MoveTo run whose count field is patched once the
    /// number of surviving (non-zero-delta) points is known.
    pub fn add_points(&mut self, points: &[(i32, i32)])
        requires
            chain_fits(old(self).cursor_s(), points@),
            points@.len() <= MAX_COMMAND_COUNT,
        ensures
            final (self).output_s() == old(self).output_s() + points_words(
                old(self).cursor_s(),
                points@,
            ),
            final (self).cursor_s() == if points@.len() == 0 {
                old(self).cursor_s()
            } else {
                points@.last()
            },
    {
        if points.len() == 0 {
            assert(final (self).output_s() =~= old(self).output_s());
            return ;
        }
        let ghost c0 = self.cursor_s();
        let ghost buf0 = self.buf@;
        let first = points[0];
        assert(chain_idx_ok(c0, points@, 0));
        let dx = first.0 - self.prev_x;
        let dy = first.1 - self.prev_y;
        self.prev_x = first.0;
        self.prev_y = first.1;

        let moveto_cmd_pos = self.buf.len();
        self.buf.push(GEOM_COMMAND_MOVE_TO_WITH_COUNT1);
        self.buf.push(zigzag(dx));
        self.buf.push(zigzag(dy));

        let mut count: u32 = 1;
        let mut i: usize = 1;
        proof {
            assert(points@.take(1) =~= seq![points@[0]]);
            assert(points@.take(1).drop_first() =~= Seq::<Point>::empty());
            lemma_elide_empty(points@[0]);
            assert(kept_pts(points@.take(1)) =~= seq![points@[0]]);
            lemma_coord_words_single(c0, points@[0]);
            assert(self.buf@ =~= buf0 + seq![GEOM_COMMAND_MOVE_TO_WITH_COUNT1] + coord_words(
                c0,
                kept_pts(points@.take(1)),
            ));
        }
        while i < points.len()
            invariant
                1 <= i <= points@.len(),
                points@.len() <= MAX_COMMAND_COUNT,
                chain_fits(c0, points@),
                (self.prev_x, self.prev_y) == points@[i - 1],
                count == kept_pts(points@.take(i as int)).len(),
                self.buf@ == buf0 + seq![GEOM_COMMAND_MOVE_TO_WITH_COUNT1] + coord_words(
                    c0,
                    kept_pts(points@.take(i as int)),
                ),
                moveto_cmd_pos == buf0.len(),
            decreases points@.len() - i,
        {
            let ghost t = points@.take(i as int);
            proof {
                lemma_kept_shape(t);
                lemma_elide_len(t[0], t.drop_first());
                assert(t.last() == points@[i - 1]);
                assert(points@.take(i + 1) =~= t.push(points@[i as int]));
                lemma_kept_push(t, points@[i as int]);
                lemma_coord_words_push(c0, kept_pts(t), points@[i as int]);
                assert(chain_idx_ok(c0, points@, i as int));
            }
            let p = points[i];
            let dx = p.0 - self.prev_x;
            let dy = p.1 - self.prev_y;
            self.prev_x = p.0;
            self.prev_y = p.1;
            if dx != 0 || dy != 0 {
                assert(p != points@[i - 1]);
                self.buf.push(zigzag(dx));
                self.buf.push(zigzag(dy));
                proof {
                    assert(kept_pts(points@.take(i + 1)) == kept_pts(t).push(points@[i as int]));
                    assert(self.buf@ =~= buf0 + seq![GEOM_COMMAND_MOVE_TO_WITH_COUNT1]
                        + coord_words(c0, kept_pts(points@.take(i + 1))));
                }
                count = count + 1;
            } else {
                assert(p == points@[i - 1]);
                assert(kept_pts(points@.take(i + 1)) == kept_pts(t));
            }
            i = i + 1;
        }
        proof {
            assert(points@.take(points@.len() as int) =~= points@);
            lemma_kept_shape(points@);
        }
        let w = GEOM_COMMAND_MOVE_TO | count << 3;
        let ghost bufnow = self.buf@;
        self.buf[moveto_cmd_pos] = w;
        proof {
            lemma_points_patch(buf0, c0, points@, count, bufnow, w);
        }
    }

    /// Adds a line string.
    pub fn add_linestring(&mut self, points: &[(i32, i32)])
        requires
            chain_fits(old(self).cursor_s(), points@),
            points@.len() <= MAX_COMMAND_COUNT,
        ensures
            final (self).output_s() == old(self).output_s() + path_words(
                old(self).cursor_s(),
                points@,
                false,
            ),
            final (self).cursor_s() == if points@.len() == 0 {
                old(self).cursor_s()
            } else {
                points@.last()
            },
    {
        self.add_path(points, false)
    }

    /// Adds a polygon ring.
    ///
    /// A polygon consists of one exterior ring (clockwise) and optionally
    /// one or more interior rings (counter-clockwise); the encoder does not
    /// verify or correct winding.
    pub fn add_ring(&mut self, points: &[(i32, i32)])
        requires
            chain_fits(old(self).cursor_s(), points@),
            points@.len() <= MAX_COMMAND_COUNT,
        ensures
            final (self).output_s() == old(self).output_s() + path_words(
                old(self).cursor_s(),
                points@,
                true,
            ),
            final (self).cursor_s() == if points@.len() == 0 {
                old(self).cursor_s()
            } else {
                points@.last()
            },
    {
        self.add_path(points, true)
    }

    /// Adds a path (line string or polygon ring).
    fn add_path(&mut self, points: &[(i32, i32)], close: bool)
        requires
            chain_fits(old(self).cursor_s(), points@),
            points@.len() <= MAX_COMMAND_COUNT,
        ensures
            final (self).output_s() == old(self).output_s() + path_words(
                old(self).cursor_s(),
                points@,
                close,
            ),
            final (self).cursor_s() == if points@.len() == 0 {
                old(self).cursor_s()
            } else {
                points@.last()
            },
    {
        if points.len() == 0 {
            assert(final (self).output_s() =~= old(self).output_s());
            return ;
        }
        let ghost c0 = self.cursor_s();
        let ghost buf0 = self.buf@;
        let first = points[0];
        assert(chain_idx_ok(c0, points@, 0));
        let dx = first.0 - self.prev_x;
        let dy = first.1 - self.prev_y;
        self.prev_x = first.0;
        self.prev_y = first.1;

        self.buf.push(GEOM_COMMAND_MOVE_TO_WITH_COUNT1);
        self.buf.push(zigzag(dx));
        self.buf.push(zigzag(dy));

        let lineto_cmd_pos = self.buf.len();
        self.buf.push(GEOM_COMMAND_LINE_TO);
        let ghost head = seq![
            GEOM_COMMAND_MOVE_TO_WITH_COUNT1,
            zigzag_s((points@[0].0 - c0.0) as i32),
            zigzag_s((points@[0].1 - c0.1) as i32),
            GEOM_COMMAND_LINE_TO,
        ];

        let mut count: u32 = 0;
        let mut i: usize = 1;
        proof {
            assert(points@.take(1) =~= seq![points@[0]]);
            assert(points@.take(1).drop_first() =~= Seq::<Point>::empty());
            lemma_elide_empty(points@[0]);
            assert(kept_pts(points@.take(1)) =~= seq![points@[0]]);
            assert(kept_pts(points@.take(1)).drop_first() =~= Seq::<Point>::empty());
            lemma_coord_words_empty(points@[0]);
            assert(self.buf@ =~= buf0 + head + coord_words(
                points@[0],
                kept_pts(points@.take(1)).drop_first(),
            ));
        }
        while i < points.len()
            invariant
                1 <= i <= points@.len(),
                points@.len() <= MAX_COMMAND_COUNT,
                chain_fits(c0, points@),
                (self.prev_x, self.prev_y) == points@[i - 1],
                count == kept_pts(points@.take(i as int)).drop_first().len(),
                kept_pts(points@.take(i as int))[0] == points@[0],
                self.buf@ == buf0 + head + coord_words(
                    points@[0],
                    kept_pts(points@.take(i as int)).drop_first(),
                ),
                lineto_cmd_pos == buf0.len() + 3,
            decreases points@.len() - i,
        {
            let ghost t = points@.take(i as int);
            let ghost k = kept_pts(t);
            let ghost tail = k.drop_first();
            proof {
                lemma_kept_shape(t);
                lemma_elide_len(t[0], t.drop_first());
                assert(t.last() == points@[i - 1]);
                assert(points@.take(i + 1) =~= t.push(points@[i as int]));
                lemma_kept_push(t, points@[i as int]);
                lemma_coord_words_push(points@[0], tail, points@[i as int]);
                assert(chain_idx_ok(c0, points@, i as int));
                // the last point of the kept chain (seen from points[0]) is t.last()
                if tail.len() == 0 {
                    assert(k.last() == k[0]);
                    assert(t.last() == points@[0]);
                } else {
                    assert(tail.last() == k.last());
                }
            }
            let p = points[i];
            let dx = p.0 - self.prev_x;
            let dy = p.1 - self.prev_y;
            self.prev_x = p.0;
            self.prev_y = p.1;
            if dx != 0 || dy != 0 {
                assert(p != points@[i - 1]);
                self.buf.push(zigzag(dx));
                self.buf.push(zigzag(dy));
                proof {
                    assert(kept_pts(points@.take(i + 1)) == k.push(points@[i as int]));
                    assert(kept_pts(points@.take(i + 1)).drop_first() =~= tail.push(
                        points@[i as int],
                    ));
                    assert(self.buf@ =~= buf0 + head + coord_words(
                        points@[0],
                        kept_pts(points@.take(i + 1)).drop_first(),
                    ));
                }
                count = count + 1;
            } else {
                assert(p == points@[i - 1]);
                assert(kept_pts(points@.take(i + 1)) == k);
            }
            i = i + 1;
        }
        proof {
            assert(points@.take(points@.len() as int) =~= points@);
            lemma_kept_shape(points@);
            lemma_coord_words_empty(points@[0]);
        }
        // if the path has only one surviving point, repeat it with a zero delta
        if count == 0 {
            self.buf.push(0);
            self.buf.push(0);
            count = 1;
            proof {
                assert(self.buf@ =~= buf0 + head + seq![0u32, 0u32]);
            }
        }
        let w = GEOM_COMMAND_LINE_TO | count << 3;
        let ghost bufnow = self.buf@;
        self.buf[lineto_cmd_pos] = w;
        proof {
            assert(head =~= seq![
                GEOM_COMMAND_MOVE_TO_WITH_COUNT1,
                zigzag_s((points@[0].0 - c0.0) as i32),
                zigzag_s((points@[0].1 - c0.1) as i32),
                GEOM_COMMAND_LINE_TO,
            ]);
            lemma_path_patch(buf0, c0, points@, count, bufnow, w);
        }
        if close {
            self.buf.push(GEOM_COMMAND_CLOSE_PATH_WITH_COUNT1);
            proof {
                lemma_path_words_close(c0, points@);
            }
        }
    }
}

impl Default for GeometryEncoder {
    /// Same as [`GeometryEncoder::new`].
    fn default() -> (r: Self)
        ensures
            r.output_s() == Seq::<u32>::empty(),
            r.cursor_s() == ((0i32, 0i32)),
    {
        Self::new()
    }
}

/// A structural failure while decoding a geometry command stream.
///
/// Each variant identifies the expected-versus-found command or the
/// bounds violation; the carried value is the offending command id or
/// repeat count.
#[derive(Debug, Clone, Copy, PartialEq, Eq, Structural)]
pub enum GeomError {
    /// A command other than MoveTo at the top level of a point geometry.
    UnexpectedCommand(u32),
    /// A command other than MoveTo where a path must start.
    ExpectedMoveTo(u32),
    /// A MoveTo whose repeat count is not 1 in a path context.
    MoveToCountNotOne(u32),
    /// A command other than LineTo after a path's MoveTo.
    ExpectedLineTo(u32),
    /// A command other than ClosePath after a ring's LineTo run.
    ExpectedClosePath(u32),
    /// The buffer ended where a LineTo command was required.
    EndAfterMoveTo,
    /// The buffer ended where a ClosePath command was required.
    EndAfterLineTo,
    /// The buffer ended in the middle of a coordinate pair.
    EndOfCoordinates,
}

/// Wrapping 32-bit signed addition: how the decoder's cursor advances.
pub open spec fn wadd(a: i32, b: i32) -> i32 {
    vstd::wrapping::i32_specs::wrapping_add(a, b)
}

/// The absolute point reached from `cur` by one encoded delta pair.
pub open spec fn step_pt(cur: Point, dxw: u32, dyw: u32) -> Point {
    (wadd(cur.0, unzigzag_s(dxw)), wadd(cur.1, unzigzag_s(dyw)))
}

/// Reads `n` coordinate pairs starting at `pos`, returning the absolute
/// points and the final cursor. Callers guard `pos + 2 * n <= buf.len()`.
pub open spec fn read_coords_s(buf: Seq<u32>, pos: int, cur: Point, n: nat) -> (Seq<Point>, Point)
    decreases n,
{
    if n == 0 {
        (Seq::empty(), cur)
    } else {
        let p = step_pt(cur, buf[pos], buf[pos + 1]);
        let (s, c) = read_coords_s(buf, pos + 2, p, (n - 1) as nat);
        (seq![p] + s, c)
    }
}

/// What decoding points from `pos` onward yields: only MoveTo commands
/// are legal at the top level, each followed by its `count` coordinate
/// pairs.
pub open spec fn decode_points_s(buf: Seq<u32>, pos: int, cur: Point) -> Result<
    Seq<Point>,
    GeomError,
>
    decreases buf.len() - pos,
{
    if pos < 0 || pos >= buf.len() {
        Ok(Seq::empty())
    } else {
        let w = buf[pos];
        let cmd = w & 0x7;
        let count = (w >> 3) as nat;
        if cmd == GEOM_COMMAND_MOVE_TO {
            if pos + 1 + 2 * count <= buf.len() {
                let (s, c) = read_coords_s(buf, pos + 1, cur, count);
                match decode_points_s(buf, pos + 1 + 2 * count, c) {
                    Ok(rest) => Ok(s + rest),
                    Err(e) => Err(e),
                }
            } else {
                Err(GeomError::EndOfCoordinates)
            }
        } else {
            Err(GeomError::UnexpectedCommand(cmd))
        }
    }
}

/// What decoding linestrings from `pos` onward yields: each linestring
/// is a MoveTo of count 1 followed by a LineTo run.
pub open spec fn decode_linestrings_s(buf: Seq<u32>, pos: int, cur: Point) -> Result<
    Seq<Seq<Point>>,
    GeomError,
>
    decreases buf.len() - pos,
{
    if pos < 0 || pos >= buf.len() {
        Ok(Seq::empty())
    } else {
        let w = buf[pos];
        let cmd = w & 0x7;
        let count = w >> 3;
        if cmd != GEOM_COMMAND_MOVE_TO {
            Err(GeomError::ExpectedMoveTo(cmd))
        } else if count != 1 {
            Err(GeomError::MoveToCountNotOne(count))
        } else if pos + 3 > buf.len() {
            Err(GeomError::EndOfCoordinates)
        } else {
            let (s0, c0) = read_coords_s(buf, pos + 1, cur, 1);
            let p1 = pos + 3;
            if p1 >= buf.len() {
                Err(GeomError::EndAfterMoveTo)
            } else {
                let w2 = buf[p1];
                let cmd2 = w2 & 0x7;
                let count2 = (w2 >> 3) as nat;
                if cmd2 != GEOM_COMMAND_LINE_TO {
                    Err(GeomError::ExpectedLineTo(cmd2))
                } else if p1 + 1 + 2 * count2 > buf.len() {
                    Err(GeomError::EndOfCoordinates)
                } else {
                    let (s2, c2) = read_coords_s(buf, p1 + 1, c0, count2);
                    match decode_linestrings_s(buf, p1 + 1 + 2 * count2, c2) {
                        Ok(rest) => Ok(seq![s0 + s2] + rest),
                        Err(e) => Err(e),
                    }
                }
            }
        }
    }
}

/// What parsing polygon rings from `pos` onward yields, before the rings
/// are regrouped into polygons: each ring is a MoveTo of count 1, a
/// LineTo run, and a ClosePath.
pub open spec fn parse_rings_s(buf: Seq<u32>, pos: int, cur: Point) -> Result<
    Seq<Seq<Point>>,
    GeomError,
>
    decreases buf.len() - pos,
{
    if pos < 0 || pos >= buf.len() {
        Ok(Seq::empty())
    } else {
        let w = buf[pos];
        let cmd = w & 0x7;
        let count = w >> 3;
        if cmd != GEOM_COMMAND_MOVE_TO {
            Err(GeomError::ExpectedMoveTo(cmd))
        } else if count != 1 {
            Err(GeomError::MoveToCountNotOne(count))
        } else if pos + 3 > buf.len() {
            Err(GeomError::EndOfCoordinates)
        } else {
            let (s0, c0) = read_coords_s(buf, pos + 1, cur, 1);
            let p1 = pos + 3;
            if p1 >= buf.len() {
                Err(GeomError::EndAfterMoveTo)
            } else {
                let w2 = buf[p1];
                let cmd2 = w2 & 0x7;
                let count2 = (w2 >> 3) as nat;
                if cmd2 != GEOM_COMMAND_LINE_TO {
                    Err(GeomError::ExpectedLineTo(cmd2))
                } else if p1 + 1 + 2 * count2 > buf.len() {
                    Err(GeomError::EndOfCoordinates)
                } else {
                    let (s2, c2) = read_coords_s(buf, p1 + 1, c0, count2);
                    let p2 = p1 + 1 + 2 * count2;
                    if p2 >= buf.len() {
                        Err(GeomError::EndAfterLineTo)
                    } else {
                        let w3 = buf[p2];
                        let cmd3 = w3 & 0x7;
                        if cmd3 != GEOM_COMMAND_CLOSE_PATH {
                            Err(GeomError::ExpectedClosePath(cmd3))
                        } else {
                            match parse_rings_s(buf, p2 + 1, c2) {
                                Ok(rest) => Ok(seq![s0 + s2] + rest),
                                Err(e) => Err(e),
                            }
                        }
                    }
                }
            }
        }
    }
}

/// The shoelace sum from vertex `i` to the end of the ring: twice the
/// signed area contribution of those edges (indices wrap modulo the
/// ring length).
pub open spec fn shoelace_from(ring: Seq<Point>, i: int) -> int
    decreases ring.len() - i,
{
    if 0 <= i < ring.len() {
        let j = if i + 1 == ring.len() {
            0int
        } else {
            i + 1
        };
        ring[i].0 * ring[j].1 - ring[j].0 * ring[i].1 + shoelace_from(ring, i + 1)
    } else {
        0
    }
}

/// Twice the signed area of the whole ring by the shoelace formula.
pub open spec fn shoelace(ring: Seq<Point>) -> int {
    shoelace_from(ring, 0)
}

/// Twice the signed area used for ring classification: a ring with fewer
/// than 3 vertices is forced to area 0.
pub open spec fn signed_area2_s(ring: Seq<Point>) -> int {
    if ring.len() < 3 {
        0
    } else {
        shoelace(ring)
    }
}

/// A ring is exterior when its signed area is positive (clockwise in the
/// tile's y-down coordinate system); anything else, including every
/// degenerate ring, counts as interior.
pub open spec fn is_exterior(ring: Seq<Point>) -> bool {
    signed_area2_s(ring) > 0
}

/// Groups a sequence of rings into polygons: an exterior ring closes the
/// currently open polygon (if any) and starts a new one; an interior ring
/// is appended to whatever polygon is open.
pub open spec fn group_rings_s(rings: Seq<Seq<Point>>, current: Seq<Seq<Point>>) -> Seq<
    Seq<Seq<Point>>,
>
    decreases rings.len(),
{
    if rings.len() == 0 {
        if current.len() > 0 {
            seq![current]
        } else {
            Seq::empty()
        }
    } else {
        let r = rings[0];
        if is_exterior(r) && current.len() > 0 {
            seq![current] + group_rings_s(rings.drop_first(), seq![r])
        } else {
            group_rings_s(rings.drop_first(), current.push(r))
        }
    }
}

/// What decoding polygons from `pos` onward yields: the parsed rings,
/// regrouped by ring orientation.
pub open spec fn decode_polygons_s(buf: Seq<u32>, pos: int, cur: Point) -> Result<
    Seq<Seq<Seq<Point>>>,
    GeomError,
>
{
    match parse_rings_s(buf, pos, cur) {
        Ok(rings) => Ok(group_rings_s(rings, Seq::empty())),
        Err(e) => Err(e),
    }
}

/// Reading `j + 1` coordinate pairs is reading `j` pairs and then one more.
pub proof fn lemma_read_coords_snoc(buf: Seq<u32>, pos: int, cur: Point, j: nat)
    ensures
        ({
            let (s, c) = read_coords_s(buf, pos, cur, j);
            let p = step_pt(c, buf[pos + 2 * j], buf[pos + 2 * j + 1]);
            read_coords_s(buf, pos, cur, (j + 1) as nat) == (s.push(p), p)
        }),
    decreases j,
{
    let (s, c) = read_coords_s(buf, pos, cur, j);
    let p = step_pt(c, buf[pos + 2 * j], buf[pos + 2 * j + 1]);
    if j == 0 {
        assert(read_coords_s(buf, pos, cur, 0) == (Seq::<Point>::empty(), cur));
        let p0 = step_pt(cur, buf[pos], buf[pos + 1]);
        assert(read_coords_s(buf, pos + 2, p0, 0) == (Seq::<Point>::empty(), p0));
        assert(read_coords_s(buf, pos, cur, 1) == (seq![p0] + Seq::<Point>::empty(), p0));
        assert(p0 == p);
        assert(seq![p] + Seq::<Point>::empty() =~= s.push(p));
    } else {
        let p0 = step_pt(cur, buf[pos], buf[pos + 1]);
        lemma_read_coords_snoc(buf, pos + 2, p0, (j - 1) as nat);
        let (s1, c1) = read_coords_s(buf, pos + 2, p0, (j - 1) as nat);
        assert(s == seq![p0] + s1);
        assert(c == c1);
        let q = step_pt(c1, buf[pos + 2 + 2 * (j - 1)], buf[pos + 2 + 2 * (j - 1) + 1]);
        assert(q == p);
        assert(read_coords_s(buf, pos + 2, p0, j) == (s1.push(q), q));
        assert(read_coords_s(buf, pos, cur, (j + 1) as nat) == (
            seq![p0] + s1.push(p),
            p,
        ));
        assert(seq![p0] + s1.push(p) =~= (seq![p0] + s1).push(p));
    }
}

/// Reading `n` coordinate pairs yields exactly `n` points.
pub proof fn lemma_read_coords_len(buf: Seq<u32>, pos: int, cur: Point, n: nat)
    ensures
        read_coords_s(buf, pos, cur, n).0.len() == n,
    decreases n,
{
    if n > 0 {
        let p = step_pt(cur, buf[pos], buf[pos + 1]);
        lemma_read_coords_len(buf, pos + 2, p, (n - 1) as nat);
    }
}

/// zig-zag encoding
pub fn zigzag(v: i32) -> (r: u32)
    ensures
        r == zigzag_s(v),
{
    if v >= 0 {
        (v as u32) * 2
    } else {
        let m: u32 = (-(v + 1)) as u32;
        m * 2 + 1
    }
}

/// zig-zag decoding
pub fn unzigzag(u: u32) -> (r: i32)
    ensures
        r == unzigzag_s(u),
{
    let h: i32 = (u / 2) as i32;
    if u % 2 == 0 {
        h
    } else {
        -h - 1
    }
}

/// Decoded geometry types from MVT.
#[derive(Debug, Clone, PartialEq)]
pub enum DecodedGeometry {
    /// Point geometries (multiple points).
    Points(Vec<(i32, i32)>),
    /// LineString geometries (multiple linestrings).
    LineStrings(Vec<Vec<(i32, i32)>>),
    /// Polygon geometries (multiple polygons, each with rings).
    Polygons(Vec<Vec<Vec<(i32, i32)>>>),
}

/// Alias for DecodedGeometry for convenience.
pub type Geometry = DecodedGeometry;

/// Prepends already-decoded points to the outcome of decoding the rest.
spec fn points_cont(acc: Seq<Point>, r: Result<Seq<Point>, GeomError>) -> Result<
    Seq<Point>,
    GeomError,
> {
    match r {
        Ok(rest) => Ok(acc + rest),
        Err(e) => Err(e),
    }
}

/// Prepends already-decoded linestrings to the outcome of decoding the rest.
spec fn lines_cont(acc: Seq<Seq<Point>>, r: Result<Seq<Seq<Point>>, GeomError>) -> Result<
    Seq<Seq<Point>>,
    GeomError,
> {
    match r {
        Ok(rest) => Ok(acc + rest),
        Err(e) => Err(e),
    }
}

/// Prepends already-closed polygons, with a polygon still open, to the
/// outcome of parsing and grouping the remaining rings.
spec fn polys_cont(
    acc: Seq<Seq<Seq<Point>>>,
    current: Seq<Seq<Point>>,
    r: Result<Seq<Seq<Point>>, GeomError>,
) -> Result<Seq<Seq<Seq<Point>>>, GeomError> {
    match r {
        Ok(rings) => Ok(acc + group_rings_s(rings, current)),
        Err(e) => Err(e),
    }
}

/// Utility for decoding MVT geometries.
pub struct GeometryDecoder<'a> {
    buf: &'a [u32],
    pos: usize,
    cursor_x: i32,
    cursor_y: i32,
}

impl<'a> GeometryDecoder<'a> {
    /// The command stream being decoded.
    pub closed spec fn buf_s(self) -> Seq<u32> {
        self.buf@
    }

    /// The next word to read.
    pub closed spec fn pos_s(self) -> int {
        self.pos as int
    }

    /// The running cursor.
    pub closed spec fn cursor_v(self) -> Point {
        (self.cursor_x, self.cursor_y)
    }

    /// Creates a new decoder for the given geometry buffer.
    pub fn new(buf: &'a [u32]) -> (r: Self)
        ensures
            r.buf_s() == buf@,
            r.pos_s() == 0,
            r.cursor_v() == ((0i32, 0i32)),
    {
        Self { buf, pos: 0, cursor_x: 0, cursor_y: 0 }
    }

    /// Reads a coordinate pair from the buffer.
    fn read_coord(&mut self) -> (r: Result<(i32, i32), GeomError>)
        ensures
            final (self).buf_s() == old(self).buf_s(),
            ({
                let buf = old(self).buf_s();
                let pos = old(self).pos_s();
                let cur = old(self).cursor_v();
                if pos + 2 <= buf.len() {
                    let p = step_pt(cur, buf[pos], buf[pos + 1]);
                    &&& r == Ok::<Point, GeomError>(p)
                    &&& final (self).pos_s() == pos + 2
                    &&& final (self).cursor_v() == p
                } else {
                    &&& r == Err::<Point, GeomError>(GeomError::EndOfCoordinates)
                    &&& final (self).pos_s() == pos
                    &&& final (self).cursor_v() == cur
                }
            }),
    {
        if self.pos >= self.buf.len() || self.pos + 1 >= self.buf.len() {
            return Err(GeomError::EndOfCoordinates);
        }
        let dx = unzigzag(self.buf[self.pos]);
        let dy = unzigzag(self.buf[self.pos + 1]);
        self.pos = self.pos + 2;
        self.cursor_x = self.cursor_x.wrapping_add(dx);
        self.cursor_y = self.cursor_y.wrapping_add(dy);
        Ok((self.cursor_x, self.cursor_y))
    }

    /// Reads `count` coordinate pairs, appending the absolute points to `out`.
    #[verifier::loop_isolation(false)]
    fn read_coords_into(&mut self, count: usize, out: &mut Vec<(i32, i32)>) -> (r: Result<
        (),
        GeomError,
    >)
        requires
            old(self).pos_s() <= old(self).buf_s().len(),
        ensures
            final (self).buf_s() == old(self).buf_s(),
            ({
                let buf = old(self).buf_s();
                let pos = old(self).pos_s();
                let cur = old(self).cursor_v();
                if pos + 2 * count <= buf.len() {
                    let sc = read_coords_s(buf, pos, cur, count as nat);
                    &&& r == Ok::<(), GeomError>(())
                    &&& final (self).pos_s() == pos + 2 * count
                    &&& final (self).pos_s() <= buf.len()
                    &&& final (self).cursor_v() == sc.1
                    &&& final (out)@ == old(out)@ + sc.0
                } else {
                    r == Err::<(), GeomError>(GeomError::EndOfCoordinates)
                }
            }),
    {
        let ghost buf = self.buf@;
        let ghost pos0 = self.pos as int;
        let ghost cur0 = self.cursor_v();
        let ghost out0 = out@;
        proof {
            assert(read_coords_s(buf, pos0, cur0, 0) == (Seq::<Point>::empty(), cur0));
            assert(out0 + Seq::<Point>::empty() =~= out0);
        }
        let mut j: usize = 0;
        while j < count
            invariant
                j <= count,
                self.buf@ == buf,
                self.pos as int == pos0 + 2 * j,
                self.pos <= buf.len(),
                self.cursor_v() == read_coords_s(buf, pos0, cur0, j as nat).1,
                out@ == out0 + read_coords_s(buf, pos0, cur0, j as nat).0,
            decreases count - j,
        {
            proof {
                lemma_read_coords_snoc(buf, pos0, cur0, j as nat);
            }
            let ghost sj = read_coords_s(buf, pos0, cur0, j as nat).0;
            match self.read_coord() {
                Ok(p) => {
                    out.push(p);
                    proof {
                        assert(out@ =~= out0 + sj.push(p));
                    }
                },
                Err(e) => {
                    proof {
                        assert(pos0 + 2 * (j as int) + 2 > buf.len());
                        assert(pos0 + 2 * count > buf.len());
                    }
                    return Err(e);
                },
            }
            j = j + 1;
        }
        Ok(())
    }

    /// Decodes points from the geometry buffer.
    ///
    /// Returns exactly what [`decode_points_s`] states for the decoder's
    /// current position and cursor, as a value or as an error.
    #[verifier::loop_isolation(false)]
    pub fn decode_points(&mut self) -> (r: Result<Vec<(i32, i32)>, GeomError>)
        ensures
            final (self).buf_s() == old(self).buf_s(),
            ({
                let spec_r = decode_points_s(
                    old(self).buf_s(),
                    old(self).pos_s(),
                    old(self).cursor_v(),
                );
                match r {
                    Ok(v) => spec_r == Ok::<Seq<Point>, GeomError>(v@),
                    Err(e) => spec_r == Err::<Seq<Point>, GeomError>(e),
                }
            }),
    {
        let ghost buf = self.buf@;
        let ghost pos0 = self.pos as int;
        let ghost cur0 = self.cursor_v();
        let mut points: Vec<(i32, i32)> = Vec::new();
        proof {
            assert(points@ =~= Seq::<Point>::empty());
        }
        while self.pos < self.buf.len()
            invariant
                self.buf@ == buf,
                points_cont(points@, decode_points_s(buf, self.pos as int, self.cursor_v()))
                    == decode_points_s(buf, pos0, cur0),
            decreases buf.len() - self.pos,
        {
            let ghost pos_a = self.pos as int;
            let ghost cur_a = self.cursor_v();
            let ghost pts_a = points@;
            let cmd_int = self.buf[self.pos];
            self.pos = self.pos + 1;
            let cmd = cmd_int & 0x7;
            let count = (cmd_int >> 3) as usize;
            if cmd == GEOM_COMMAND_MOVE_TO {
                match self.read_coords_into(count, &mut points) {
                    Ok(()) => {
                        proof {
                            let sc = read_coords_s(buf, pos_a + 1, cur_a, count as nat);
                            assert(decode_points_s(buf, pos_a, cur_a) == match decode_points_s(
                                buf,
                                pos_a + 1 + 2 * count,
                                sc.1,
                            ) {
                                Ok(rest) => Ok::<Seq<Point>, GeomError>(sc.0 + rest),
                                Err(e) => Err(e),
                            });
                            assert(points@ == pts_a + sc.0);
                            match decode_points_s(buf, pos_a + 1 + 2 * count, sc.1) {
                                Ok(rest) => {
                                    assert((pts_a + sc.0) + rest =~= pts_a + (sc.0 + rest));
                                },
                                Err(_) => {},
                            }
                        }
                    },
                    Err(e) => {
                        proof {
                            assert(pos_a + 1 + 2 * count > buf.len());
                            assert(decode_points_s(buf, pos_a, cur_a) == Err::<
                                Seq<Point>,
                                GeomError,
                            >(GeomError::EndOfCoordinates));
                        }
                        return Err(e);
                    },
                }
            } else {
                proof {
                    assert(decode_points_s(buf, pos_a, cur_a) == Err::<Seq<Point>, GeomError>(
                        GeomError::UnexpectedCommand(cmd),
                    ));
                }
                return Err(GeomError::UnexpectedCommand(cmd));
            }
        }
        proof {
            assert(decode_points_s(buf, self.pos as int, self.cursor_v()) == Ok::<
                Seq<Point>,
                GeomError,
            >(Seq::empty()));
            assert(points@ + Seq::<Point>::empty() =~= points@);
        }
        Ok(points)
    }

    /// Decodes linestrings from the geometry buffer.
    ///
    /// Returns exactly what [`decode_linestrings_s`] states for the
    /// decoder's current position and cursor, as a value or as an error.
    #[verifier::loop_isolation(false)]
    pub fn decode_linestrings(&mut self) -> (r: Result<Vec<Vec<(i32, i32)>>, GeomError>)
        ensures
            final (self).buf_s() == old(self).buf_s(),
            ({
                let spec_r = decode_linestrings_s(
                    old(self).buf_s(),
                    old(self).pos_s(),
                    old(self).cursor_v(),
                );
                match r {
                    Ok(v) => spec_r matches Ok(ss) && v@.len() == ss.len() && (forall|i: int|
                        0 <= i < ss.len() ==> #[trigger] v@[i]@ == ss[i]),
                    Err(e) => spec_r == Err::<Seq<Seq<Point>>, GeomError>(e),
                }
            }),
    {
        let ghost buf = self.buf@;
        let ghost pos0 = self.pos as int;
        let ghost cur0 = self.cursor_v();
        let mut linestrings: Vec<Vec<(i32, i32)>> = Vec::new();
        let ghost mut acc: Seq<Seq<Point>> = Seq::empty();
        while self.pos < self.buf.len()
            invariant
                self.buf@ == buf,
                lines_cont(acc, decode_linestrings_s(buf, self.pos as int, self.cursor_v()))
                    == decode_linestrings_s(buf, pos0, cur0),
                linestrings@.len() == acc.len(),
                forall|i: int| 0 <= i < acc.len() ==> #[trigger] linestrings@[i]@ == acc[i],
            decreases buf.len() - self.pos,
        {
            let ghost pos_a = self.pos as int;
            let ghost cur_a = self.cursor_v();
            let mut linestring: Vec<(i32, i32)> = Vec::new();

            // MoveTo command
            let cmd_int = self.buf[self.pos];
            self.pos = self.pos + 1;
            let cmd = cmd_int & 0x7;
            let count = cmd_int >> 3;
            if cmd != GEOM_COMMAND_MOVE_TO {
                proof {
                    assert(decode_linestrings_s(buf, pos_a, cur_a) == Err::<
                        Seq<Seq<Point>>,
                        GeomError,
                    >(GeomError::ExpectedMoveTo(cmd)));
                }
                return Err(GeomError::ExpectedMoveTo(cmd));
            }
            if count != 1 {
                proof {
                    assert(decode_linestrings_s(buf, pos_a, cur_a) == Err::<
                        Seq<Seq<Point>>,
                        GeomError,
                    >(GeomError::MoveToCountNotOne(count)));
                }
                return Err(GeomError::MoveToCountNotOne(count));
            }
            match self.read_coords_into(1, &mut linestring) {
                Ok(()) => {},
                Err(e) => {
                    proof {
                        assert(pos_a + 3 > buf.len());
                        assert(decode_linestrings_s(buf, pos_a, cur_a) == Err::<
                            Seq<Seq<Point>>,
                            GeomError,
                        >(GeomError::EndOfCoordinates));
                    }
                    return Err(e);
                },
            }
            let ghost s0c = read_coords_s(buf, pos_a + 1, cur_a, 1);

            // LineTo command
            if self.pos >= self.buf.len() {
                proof {
                    assert(decode_linestrings_s(buf, pos_a, cur_a) == Err::<
                        Seq<Seq<Point>>,
                        GeomError,
                    >(GeomError::EndAfterMoveTo));
                }
                return Err(GeomError::EndAfterMoveTo);
            }
            let cmd_int2 = self.buf[self.pos];
            self.pos = self.pos + 1;
            let cmd2 = cmd_int2 & 0x7;
            let count2 = (cmd_int2 >> 3) as usize;
            if cmd2 != GEOM_COMMAND_LINE_TO {
                proof {
                    assert(decode_linestrings_s(buf, pos_a, cur_a) == Err::<
                        Seq<Seq<Point>>,
                        GeomError,
                    >(GeomError::ExpectedLineTo(cmd2)));
                }
                return Err(GeomError::ExpectedLineTo(cmd2));
            }
            match self.read_coords_into(count2, &mut linestring) {
                Ok(()) => {},
                Err(e) => {
                    proof {
                        assert(pos_a + 4 + 2 * count2 > buf.len());
                        assert(decode_linestrings_s(buf, pos_a, cur_a) == Err::<
                            Seq<Seq<Point>>,
                            GeomError,
                        >(GeomError::EndOfCoordinates));
                    }
                    return Err(e);
                },
            }
            let ghost s2c = read_coords_s(buf, pos_a + 4, s0c.1, count2 as nat);
            let ghost ls_v = linestring@;
            let ghost acc_a = acc;
            linestrings.push(linestring);
            proof {
                assert(ls_v == s0c.0 + s2c.0);
                acc = acc_a.push(ls_v);
                assert(decode_linestrings_s(buf, pos_a, cur_a) == match decode_linestrings_s(
                    buf,
                    pos_a + 4 + 2 * count2,
                    s2c.1,
                ) {
                    Ok(rest) => Ok::<Seq<Seq<Point>>, GeomError>(seq![ls_v] + rest),
                    Err(e) => Err(e),
                });
                match decode_linestrings_s(buf, self.pos as int, self.cursor_v()) {
                    Ok(rest) => {
                        assert(acc_a + (seq![ls_v] + rest) =~= acc_a.push(ls_v) + rest);
                    },
                    Err(_) => {},
                }
            }
        }
        proof {
            assert(decode_linestrings_s(buf, self.pos as int, self.cursor_v()) == Ok::<
                Seq<Seq<Point>>,
                GeomError,
            >(Seq::empty()));
            assert(acc + Seq::<Seq<Point>>::empty() =~= acc);
        }
        Ok(linestrings)
    }

    /// Decodes polygons from the geometry buffer, regrouping the rings by
    /// their orientation.
    ///
    /// Returns exactly what [`decode_polygons_s`] states for the decoder's
    /// current position and cursor, as a value or as an error.
    #[verifier::loop_isolation(false)]
    pub fn decode_polygons(&mut self) -> (r: Result<Vec<Vec<Vec<(i32, i32)>>>, GeomError>)
        ensures
            final (self).buf_s() == old(self).buf_s(),
            ({
                let spec_r = decode_polygons_s(
                    old(self).buf_s(),
                    old(self).pos_s(),
                    old(self).cursor_v(),
                );
                match r {
                    Ok(v) => spec_r matches Ok(ss) && v@.len() == ss.len() && (forall|i: int|
                        0 <= i < ss.len() ==> #[trigger] v@[i]@.len() == ss[i].len()) && (forall|
                        i: int,
                        j: int,
                    |
                        0 <= i < ss.len() && 0 <= j < ss[i].len() ==> #[trigger] v@[i]@[j]@
                            == ss[i][j]),
                    Err(e) => spec_r == Err::<Seq<Seq<Seq<Point>>>, GeomError>(e),
                }
            }),
    {
        let ghost buf = self.buf@;
        let ghost pos0 = self.pos as int;
        let ghost cur0 = self.cursor_v();
        let mut polygons: Vec<Vec<Vec<(i32, i32)>>> = Vec::new();
        let mut current_polygon: Vec<Vec<(i32, i32)>> = Vec::new();
        let ghost mut acc: Seq<Seq<Seq<Point>>> = Seq::empty();
        let ghost mut cur_poly: Seq<Seq<Point>> = Seq::empty();
        while self.pos < self.buf.len()
            invariant
                self.buf@ == buf,
                polys_cont(
                    acc,
                    cur_poly,
                    parse_rings_s(buf, self.pos as int, self.cursor_v()),
                ) == decode_polygons_s(buf, pos0, cur0),
                polygons@.len() == acc.len(),
                forall|i: int| 0 <= i < acc.len() ==> #[trigger] polygons@[i]@.len()
                    == acc[i].len(),
                forall|i: int, j: int|
                    0 <= i < acc.len() && 0 <= j < acc[i].len() ==> #[trigger] polygons@[i]@[j]@
                        == acc[i][j],
                current_polygon@.len() == cur_poly.len(),
                forall|j: int| 0 <= j < cur_poly.len() ==> #[trigger] current_polygon@[j]@
                    == cur_poly[j],
            decreases buf.len() - self.pos,
        {
            let ghost pos_a = self.pos as int;
            let ghost cur_a = self.cursor_v();
            let mut ring: Vec<(i32, i32)> = Vec::new();

            // MoveTo command
            let cmd_int = self.buf[self.pos];
            self.pos = self.pos + 1;
            let cmd = cmd_int & 0x7;
            let count = cmd_int >> 3;
            if cmd != GEOM_COMMAND_MOVE_TO {
                proof {
                    assert(parse_rings_s(buf, pos_a, cur_a) == Err::<Seq<Seq<Point>>, GeomError>(
                        GeomError::ExpectedMoveTo(cmd),
                    ));
                }
                return Err(GeomError::ExpectedMoveTo(cmd));
            }
            if count != 1 {
                proof {
                    assert(parse_rings_s(buf, pos_a, cur_a) == Err::<Seq<Seq<Point>>, GeomError>(
                        GeomError::MoveToCountNotOne(count),
                    ));
                }
                return Err(GeomError::MoveToCountNotOne(count));
            }
            match self.read_coords_into(1, &mut ring) {
                Ok(()) => {},
                Err(e) => {
                    proof {
                        assert(pos_a + 3 > buf.len());
                        assert(parse_rings_s(buf, pos_a, cur_a) == Err::<
                            Seq<Seq<Point>>,
                            GeomError,
                        >(GeomError::EndOfCoordinates));
                    }
                    return Err(e);
                },
            }
            let ghost s0c = read_coords_s(buf, pos_a + 1, cur_a, 1);

            // LineTo command
            if self.pos >= self.buf.len() {
                proof {
                    assert(parse_rings_s(buf, pos_a, cur_a) == Err::<Seq<Seq<Point>>, GeomError>(
                        GeomError::EndAfterMoveTo,
                    ));
                }
                return Err(GeomError::EndAfterMoveTo);
            }
            let cmd_int2 = self.buf[self.pos];
            self.pos = self.pos + 1;
            let cmd2 = cmd_int2 & 0x7;
            let count2 = (cmd_int2 >> 3) as usize;
            if cmd2 != GEOM_COMMAND_LINE_TO {
                proof {
                    assert(parse_rings_s(buf, pos_a, cur_a) == Err::<Seq<Seq<Point>>, GeomError>(
                        GeomError::ExpectedLineTo(cmd2),
                    ));
                }
                return Err(GeomError::ExpectedLineTo(cmd2));
            }
            match self.read_coords_into(count2, &mut ring) {
                Ok(()) => {},
                Err(e) => {
                    proof {
                        assert(pos_a + 4 + 2 * count2 > buf.len());
                        assert(parse_rings_s(buf, pos_a, cur_a) == Err::<
                            Seq<Seq<Point>>,
                            GeomError,
                        >(GeomError::EndOfCoordinates));
                    }
                    return Err(e);
                },
            }
            let ghost s2c = read_coords_s(buf, pos_a + 4, s0c.1, count2 as nat);

            // ClosePath command
            if self.pos >= self.buf.len() {
                proof {
                    assert(parse_rings_s(buf, pos_a, cur_a) == Err::<Seq<Seq<Point>>, GeomError>(
                        GeomError::EndAfterLineTo,
                    ));
                }
                return Err(GeomError::EndAfterLineTo);
            }
            let cmd_int3 = self.buf[self.pos];
            self.pos = self.pos + 1;
            let cmd3 = cmd_int3 & 0x7;
            if cmd3 != GEOM_COMMAND_CLOSE_PATH {
                proof {
                    assert(parse_rings_s(buf, pos_a, cur_a) == Err::<Seq<Seq<Point>>, GeomError>(
                        GeomError::ExpectedClosePath(cmd3),
                    ));
                }
                return Err(GeomError::ExpectedClosePath(cmd3));
            }
            let ghost ring_v = ring@;
            proof {
                assert(ring_v == s0c.0 + s2c.0);
                assert(parse_rings_s(buf, pos_a, cur_a) == match parse_rings_s(
                    buf,
                    pos_a + 5 + 2 * count2,
                    s2c.1,
                ) {
                    Ok(rest) => Ok::<Seq<Seq<Point>>, GeomError>(seq![ring_v] + rest),
                    Err(e) => Err(e),
                });
            }

            // Classify the ring by its signed area and regroup.
            let area_pos = signed_area2(&ring) > 0;
            let ghost acc_a = acc;
            let ghost cur_a2 = cur_poly;
            if area_pos && current_polygon.len() > 0 {
                polygons.push(current_polygon);
                current_polygon = Vec::new();
                proof {
                    acc = acc_a.push(cur_a2);
                    cur_poly = Seq::empty();
                }
            }
            let ghost cur_b = cur_poly;
            let ghost acc_b = acc;
            current_polygon.push(ring);
            proof {
                cur_poly = cur_b.push(ring_v);
                assert(is_exterior(ring_v) == area_pos);
                match parse_rings_s(buf, self.pos as int, self.cursor_v()) {
                    Ok(rest) => {
                        assert(group_rings_s(seq![ring_v] + rest, cur_a2)
                            == if is_exterior(ring_v) && cur_a2.len() > 0 {
                                seq![cur_a2] + group_rings_s(rest, seq![ring_v])
                            } else {
                                group_rings_s(rest, cur_a2.push(ring_v))
                            }) by {
                            assert((seq![ring_v] + rest)[0] == ring_v);
                            assert((seq![ring_v] + rest).drop_first() =~= rest);
                        }
                        if is_exterior(ring_v) && cur_a2.len() > 0 {
                            assert(cur_poly =~= seq![ring_v]);
                            assert(acc_a + (seq![cur_a2] + group_rings_s(rest, cur_poly)) =~=
                                acc_a.push(cur_a2) + group_rings_s(rest, cur_poly));
                        } else {
                            assert(cur_poly == cur_a2.push(ring_v));
                        }
                    },
                    Err(_) => {},
                }
            }
        }
        proof {
            assert(parse_rings_s(buf, self.pos as int, self.cursor_v()) == Ok::<
                Seq<Seq<Point>>,
                GeomError,
            >(Seq::empty()));
        }
        // Finalize any remaining polygon
        let ghost acc_end = acc;
        let ghost cur_end = cur_poly;
        if current_polygon.len() > 0 {
            polygons.push(current_polygon);
            proof {
                acc = acc_end.push(cur_end);
                assert(group_rings_s(Seq::empty(), cur_end) =~= seq![cur_end]);
                assert(acc_end + seq![cur_end] =~= acc_end.push(cur_end));
            }
        } else {
            proof {
                assert(cur_end =~= Seq::<Seq<Point>>::empty());
                assert(group_rings_s(Seq::empty(), cur_end) =~= Seq::<Seq<Seq<Point>>>::empty());
                assert(acc_end + Seq::<Seq<Seq<Point>>>::empty() =~= acc_end);
            }
        }
        Ok(polygons)
    }
}

/// Bound on the product of two values in `i32` range.
proof fn lemma_mul_i32_bound(a: int, b: int)
    by (nonlinear_arith)
    requires
        -0x8000_0000 <= a <= 0x7FFF_FFFF,
        -0x8000_0000 <= b <= 0x7FFF_FFFF,
    ensures
        -0x4000_0000_0000_0000 <= a * b <= 0x4000_0000_0000_0000,
{
}

/// Twice the signed area of a ring by the shoelace formula, computed
/// exactly in 128-bit arithmetic (each product of two `i32` values is at
/// most `2^62` in magnitude, and a buffer never holds `2^64` vertices).
#[verifier::loop_isolation(false)]
fn signed_area2(ring: &Vec<(i32, i32)>) -> (r: i128)
    ensures
        r == signed_area2_s(ring@),
{
    if ring.len() < 3 {
        return 0;
    }
    let n = ring.len();
    let mut area: i128 = 0;
    let mut i: usize = 0;
    while i < n
        invariant
            i <= n,
            area + shoelace_from(ring@, i as int) == shoelace(ring@),
            -(i as int) * 0x8000_0000_0000_0000 <= area as int <= (i as int)
                * 0x8000_0000_0000_0000,
        decreases n - i,
    {
        let j = if i + 1 == n {
            0
        } else {
            i + 1
        };
        let p_i = ring[i];
        let p_j = ring[j];
        proof {
            lemma_mul_i32_bound(p_i.0 as int, p_j.1 as int);
            lemma_mul_i32_bound(p_j.0 as int, p_i.1 as int);
        }
        let t1: i128 = (p_i.0 as i128) * (p_j.1 as i128);
        let t2: i128 = (p_j.0 as i128) * (p_i.1 as i128);
        area = area + (t1 - t2);
        i = i + 1;
    }
    area
}

} // verus!
