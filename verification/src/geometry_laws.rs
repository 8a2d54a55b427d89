//! Laws of the geometry codec: how encoding and decoding compose, how
//! degenerate inputs encode, and how the decoder groups rings into
//! polygons.

use vstd::prelude::*;

use crate::geometry::GEOM_COMMAND_CLOSE_PATH_WITH_COUNT1;
use crate::geometry::GEOM_COMMAND_LINE_TO;
use crate::geometry::GEOM_COMMAND_MOVE_TO;
use crate::geometry::GEOM_COMMAND_MOVE_TO_WITH_COUNT1;
use crate::geometry::MAX_COMMAND_COUNT;
use crate::geometry::Point;
use crate::geometry::chain_fits;
use crate::geometry::chain_idx_ok;
use crate::geometry::cmd_word;
use crate::geometry::coord_words;
use crate::geometry::decode_linestrings_s;
use crate::geometry::decode_points_s;
use crate::geometry::decode_polygons_s;
use crate::geometry::elide;
use crate::geometry::group_rings_s;
use crate::geometry::is_exterior;
use crate::geometry::kept_pts;
use crate::geometry::lemma_coord_words_len;
use crate::geometry::lemma_elide_empty;
use crate::geometry::lemma_elide_len;
use crate::geometry::lemma_kept_shape;
use crate::geometry::lemma_zigzag_roundtrip;
use crate::geometry::parse_rings_s;
use crate::geometry::path_words;
use crate::geometry::points_words;
use crate::geometry::read_coords_s;
use crate::geometry::shoelace;
use crate::geometry::shoelace_from;
use crate::geometry::signed_area2_s;
use crate::geometry::step_pt;
use crate::geometry::unzigzag_s;
use crate::geometry::zigzag_s;

verus! {

/// Eliding a run of points all equal to the previous point drops them all.
pub proof fn lemma_elide_all_equal(prev: Point, s: Seq<Point>)
    requires
        forall|i: int| 0 <= i < s.len() ==> #[trigger] s[i] == prev,
    ensures
        elide(prev, s) == Seq::<Point>::empty(),
    decreases s.len(),
{
    if s.len() > 0 {
        assert(s[0] == prev);
        lemma_elide_all_equal(prev, s.drop_first());
    }
}

/// A degenerate path, all of whose points are identical, encodes to a
/// MoveTo of count 1 followed by a LineTo run of count exactly 1 with a
/// zero delta — never an empty LineTo run.
pub proof fn lemma_degenerate_path(cursor: Point, pts: Seq<Point>, close: bool)
    requires
        pts.len() >= 1,
        forall|i: int| 0 <= i < pts.len() ==> #[trigger] pts[i] == pts[0],
    ensures
        path_words(cursor, pts, close) == seq![
            GEOM_COMMAND_MOVE_TO_WITH_COUNT1,
            zigzag_s((pts[0].0 - cursor.0) as i32),
            zigzag_s((pts[0].1 - cursor.1) as i32),
            cmd_word(GEOM_COMMAND_LINE_TO, 1),
            0u32,
            0u32,
        ] + if close {
            seq![GEOM_COMMAND_CLOSE_PATH_WITH_COUNT1]
        } else {
            Seq::<u32>::empty()
        },
{
    assert(forall|i: int|
        0 <= i < pts.drop_first().len() ==> #[trigger] pts.drop_first()[i] == pts[0]);
    lemma_elide_all_equal(pts[0], pts.drop_first());
    assert(kept_pts(pts) =~= seq![pts[0]]);
    assert(kept_pts(pts).drop_first() =~= Seq::<Point>::empty());
    assert(path_words(cursor, pts, close) =~= seq![
        GEOM_COMMAND_MOVE_TO_WITH_COUNT1,
        zigzag_s((pts[0].0 - cursor.0) as i32),
        zigzag_s((pts[0].1 - cursor.1) as i32),
        cmd_word(GEOM_COMMAND_LINE_TO, 1),
        0u32,
        0u32,
    ] + if close {
        seq![GEOM_COMMAND_CLOSE_PATH_WITH_COUNT1]
    } else {
        Seq::<u32>::empty()
    });
}

/// A ring with fewer than 3 vertices has shoelace sum 0 — forcing its
/// area to 0 changes nothing — so it always classifies as interior, and
/// the decoder appends it to the currently open polygon instead of
/// starting a new one.
pub proof fn lemma_small_ring_interior(r: Seq<Point>, rest: Seq<Seq<Point>>, current: Seq<Seq<Point>>)
    requires
        r.len() < 3,
    ensures
        shoelace(r) == 0,
        signed_area2_s(r) == 0,
        !is_exterior(r),
        group_rings_s(seq![r] + rest, current) == group_rings_s(rest, current.push(r)),
{
    if r.len() == 0 {
        assert(shoelace_from(r, 0) == 0);
    } else if r.len() == 1 {
        assert(shoelace_from(r, 1) == 0);
        assert(shoelace_from(r, 0) == r[0].0 * r[0].1 - r[0].0 * r[0].1 + shoelace_from(r, 1));
    } else {
        assert(shoelace_from(r, 2) == 0);
        assert(shoelace_from(r, 1) == r[1].0 * r[0].1 - r[0].0 * r[1].1 + shoelace_from(r, 2));
        assert(shoelace_from(r, 0) == r[0].0 * r[1].1 - r[1].0 * r[0].1 + shoelace_from(r, 1));
    }
    assert((seq![r] + rest)[0] == r);
    assert((seq![r] + rest).drop_first() =~= rest);
}

/// Interior rings are absorbed, in order, into the currently open polygon.
pub proof fn lemma_group_all_interior(
    holes: Seq<Seq<Point>>,
    tail: Seq<Seq<Point>>,
    current: Seq<Seq<Point>>,
)
    requires
        forall|i: int| 0 <= i < holes.len() ==> !is_exterior(#[trigger] holes[i]),
    ensures
        group_rings_s(holes + tail, current) == group_rings_s(tail, current + holes),
    decreases holes.len(),
{
    if holes.len() == 0 {
        assert(holes + tail =~= tail);
        assert(current + holes =~= current);
    } else {
        let h = holes[0];
        assert((holes + tail)[0] == h);
        assert(!is_exterior(h));
        assert((holes + tail).drop_first() =~= holes.drop_first() + tail);
        assert(forall|i: int|
            0 <= i < holes.drop_first().len() ==> !is_exterior(#[trigger] holes.drop_first()[i]));
        lemma_group_all_interior(holes.drop_first(), tail, current.push(h));
        assert(current.push(h) + holes.drop_first() =~= current + holes);
    }
}

/// Polygon regrouping: an exterior ring, N interior rings, and another
/// exterior ring decode to exactly two polygons — the first holding the
/// first exterior ring and all N interior rings in their original order,
/// the second holding the final exterior ring alone.
pub proof fn lemma_polygon_regrouping(e1: Seq<Point>, holes: Seq<Seq<Point>>, e2: Seq<Point>)
    requires
        is_exterior(e1),
        is_exterior(e2),
        forall|i: int| 0 <= i < holes.len() ==> !is_exterior(#[trigger] holes[i]),
    ensures
        group_rings_s(seq![e1] + holes + seq![e2], Seq::empty()) == seq![
            seq![e1] + holes,
            seq![e2],
        ],
{
    let rings = seq![e1] + holes + seq![e2];
    assert(rings[0] == e1);
    assert(rings.drop_first() =~= holes + seq![e2]);
    // current is empty, so even this exterior ring is simply appended
    assert(group_rings_s(rings, Seq::empty()) == group_rings_s(
        holes + seq![e2],
        Seq::<Seq<Point>>::empty().push(e1),
    ));
    assert(Seq::<Seq<Point>>::empty().push(e1) =~= seq![e1]);
    lemma_group_all_interior(holes, seq![e2], seq![e1]);
    assert(group_rings_s(holes + seq![e2], seq![e1]) == group_rings_s(
        seq![e2],
        seq![e1] + holes,
    ));
    // the second exterior ring closes the open polygon and starts its own
    assert(seq![e2][0] == e2);
    assert(seq![e2].drop_first() =~= Seq::<Seq<Point>>::empty());
    assert((seq![e1] + holes).len() > 0);
    assert(group_rings_s(seq![e2], seq![e1] + holes) == seq![seq![e1] + holes] + group_rings_s(
        Seq::<Seq<Point>>::empty(),
        seq![e2],
    ));
    assert(group_rings_s(Seq::<Seq<Point>>::empty(), seq![e2]) == seq![seq![e2]]);
    assert(seq![seq![e1] + holes] + seq![seq![e2]] =~= seq![seq![e1] + holes, seq![e2]]);
}

/// Dropping the first chain point keeps the remaining deltas in range.
proof fn lemma_chain_fits_drop(prev: Point, s: Seq<Point>)
    requires
        chain_fits(prev, s),
        s.len() > 0,
    ensures
        chain_fits(s[0], s.drop_first()),
{
    assert forall|i: int|
        0 <= i < s.drop_first().len() implies #[trigger] chain_idx_ok(
        s[0],
        s.drop_first(),
        i,
    ) by {
        assert(chain_idx_ok(prev, s, i + 1));
        assert(s.drop_first()[i] == s[i + 1]);
        if i > 0 {
            assert(s.drop_first()[i - 1] == s[i]);
        }
    }
}

/// Dropping a first point equal to the previous one keeps the remaining
/// deltas in range.
proof fn lemma_chain_fits_drop_dup(prev: Point, s: Seq<Point>)
    requires
        chain_fits(prev, s),
        s.len() > 0,
        s[0] == prev,
    ensures
        chain_fits(prev, s.drop_first()),
{
    assert forall|i: int|
        0 <= i < s.drop_first().len() implies #[trigger] chain_idx_ok(
        prev,
        s.drop_first(),
        i,
    ) by {
        assert(chain_idx_ok(prev, s, i + 1));
        assert(s.drop_first()[i] == s[i + 1]);
        if i > 0 {
            assert(s.drop_first()[i - 1] == s[i]);
        }
    }
}

/// Elision only removes zero deltas, so the surviving chain still has
/// every delta in range.
proof fn lemma_elide_chain(prev: Point, s: Seq<Point>)
    requires
        chain_fits(prev, s),
    ensures
        chain_fits(prev, elide(prev, s)),
    decreases s.len(),
{
    if s.len() == 0 {
        lemma_elide_empty(prev);
        assert(chain_fits(prev, elide(prev, s)));
    } else if s[0] == prev {
        lemma_chain_fits_drop_dup(prev, s);
        lemma_elide_chain(prev, s.drop_first());
    } else {
        lemma_chain_fits_drop(prev, s);
        lemma_elide_chain(s[0], s.drop_first());
        let e = elide(s[0], s.drop_first());
        assert(elide(prev, s) == seq![s[0]] + e);
        assert forall|i: int|
            0 <= i < (seq![s[0]] + e).len() implies #[trigger] chain_idx_ok(
            prev,
            seq![s[0]] + e,
            i,
        ) by {
            if i == 0 {
                assert(chain_idx_ok(prev, s, 0));
                assert((seq![s[0]] + e)[0] == s[0]);
            } else {
                assert(chain_idx_ok(s[0], e, i - 1));
                assert((seq![s[0]] + e)[i] == e[i - 1]);
                if i >= 2 {
                    assert((seq![s[0]] + e)[i - 1] == e[i - 2]);
                }
            }
        }
    }
}

/// The kept chain of a point sequence still has every delta in range.
proof fn lemma_kept_chain(cursor: Point, pts: Seq<Point>)
    requires
        chain_fits(cursor, pts),
        pts.len() > 0,
    ensures
        chain_fits(cursor, kept_pts(pts)),
{
    lemma_chain_fits_drop(cursor, pts);
    assert(chain_idx_ok(cursor, pts, 0));
    lemma_elide_chain(pts[0], pts.drop_first());
    let e = elide(pts[0], pts.drop_first());
    assert(kept_pts(pts) == seq![pts[0]] + e);
    assert forall|i: int|
        0 <= i < (seq![pts[0]] + e).len() implies #[trigger] chain_idx_ok(
        cursor,
        seq![pts[0]] + e,
        i,
    ) by {
        if i == 0 {
            assert((seq![pts[0]] + e)[0] == pts[0]);
        } else {
            assert(chain_idx_ok(pts[0], e, i - 1));
            assert((seq![pts[0]] + e)[i] == e[i - 1]);
            if i >= 2 {
                assert((seq![pts[0]] + e)[i - 1] == e[i - 2]);
            }
        }
    }
}

/// Reading back the coordinate words of a chain whose deltas fit yields
/// the chain itself, with the cursor resting on its last point.
proof fn lemma_read_coord_words(buf: Seq<u32>, pos: int, prev: Point, s: Seq<Point>)
    requires
        chain_fits(prev, s),
        0 <= pos,
        pos + 2 * s.len() <= buf.len(),
        buf.subrange(pos, pos + 2 * s.len()) == coord_words(prev, s),
    ensures
        read_coords_s(buf, pos, prev, s.len() as nat) == (
            s,
            if s.len() == 0 {
                prev
            } else {
                s.last()
            },
        ),
    decreases s.len(),
{
    if s.len() == 0 {
        assert(read_coords_s(buf, pos, prev, 0) == (Seq::<Point>::empty(), prev));
        assert(s =~= Seq::<Point>::empty());
    } else {
        let cw = coord_words(prev, s);
        lemma_coord_words_len(prev, s);
        assert(chain_idx_ok(prev, s, 0));
        let dx = (s[0].0 - prev.0) as i32;
        let dy = (s[0].1 - prev.1) as i32;
        assert(cw[0] == zigzag_s(dx));
        assert(cw[1] == zigzag_s(dy));
        assert(buf[pos] == cw[0]) by {
            assert(buf.subrange(pos, pos + 2 * s.len())[0] == buf[pos]);
        }
        assert(buf[pos + 1] == cw[1]) by {
            assert(buf.subrange(pos, pos + 2 * s.len())[1] == buf[pos + 1]);
        }
        lemma_zigzag_roundtrip(dx);
        lemma_zigzag_roundtrip(dy);
        assert(step_pt(prev, buf[pos], buf[pos + 1]) == s[0]);
        lemma_chain_fits_drop(prev, s);
        lemma_coord_words_len(s[0], s.drop_first());
        assert(buf.subrange(pos + 2, pos + 2 + 2 * s.drop_first().len()) =~= coord_words(
            s[0],
            s.drop_first(),
        )) by {
            assert forall|t: int|
                0 <= t < 2 * s.drop_first().len() implies buf[pos + 2 + t] == coord_words(
                s[0],
                s.drop_first(),
            )[t] by {
                assert(buf.subrange(pos, pos + 2 * s.len())[2 + t] == buf[pos + 2 + t]);
                assert(cw[2 + t] == coord_words(s[0], s.drop_first())[t]);
            }
        }
        lemma_read_coord_words(buf, pos + 2, s[0], s.drop_first());
        assert(seq![s[0]] + s.drop_first() =~= s);
        if s.len() == 1 {
            assert(s.drop_first().len() == 0);
            assert(s.last() == s[0]);
        } else {
            assert(s.drop_first().last() == s.last());
        }
    }
}

/// The command id and count fields of a command word read back exactly.
pub proof fn lemma_cmd_word_bits(cmd: u32, count: u32)
    requires
        cmd < 8,
        count <= MAX_COMMAND_COUNT,
    ensures
        cmd_word(cmd, count) & 0x7 == cmd,
        cmd_word(cmd, count) >> 3 == count,
{
    assert((cmd | (count << 3)) & 0x7 == cmd && (cmd | (count << 3)) >> 3 == count)
        by (bit_vector)
        requires
            cmd < 8u32,
            count <= 0x1FFF_FFFFu32,
    ;
}

/// The points that decoding an encoded point set yields: the input with
/// its consecutive duplicates elided.
pub open spec fn decoded_points_of(pts: Seq<Point>) -> Seq<Point> {
    if pts.len() == 0 {
        Seq::empty()
    } else {
        kept_pts(pts)
    }
}

/// Geometry round-trip for point sets: decoding an encoded point set
/// yields exactly the input with consecutive duplicate points elided.
pub proof fn lemma_points_roundtrip(cursor: Point, pts: Seq<Point>)
    requires
        chain_fits(cursor, pts),
        pts.len() <= MAX_COMMAND_COUNT,
    ensures
        decode_points_s(points_words(cursor, pts), 0, cursor) == Ok::<
            Seq<Point>,
            crate::geometry::GeomError,
        >(decoded_points_of(pts)),
{
    let buf = points_words(cursor, pts);
    if pts.len() == 0 {
        assert(buf =~= Seq::<u32>::empty());
    } else {
        let k = kept_pts(pts);
        lemma_kept_shape(pts);
        lemma_elide_len(pts[0], pts.drop_first());
        lemma_kept_chain(cursor, pts);
        lemma_coord_words_len(cursor, k);
        let w = cmd_word(GEOM_COMMAND_MOVE_TO, k.len() as u32);
        lemma_cmd_word_bits(GEOM_COMMAND_MOVE_TO, k.len() as u32);
        assert(buf == seq![w] + coord_words(cursor, k));
        assert(buf.len() == 1 + 2 * k.len());
        assert(buf[0] == w);
        assert((buf[0] >> 3) as nat == k.len());
        assert(buf.subrange(1, 1 + 2 * (k.len() as int)) =~= coord_words(cursor, k)) by {
            assert forall|t: int|
                0 <= t < 2 * k.len() implies buf[1 + t] == coord_words(cursor, k)[t] by {
                assert(buf[1 + t] == (seq![w] + coord_words(cursor, k))[1 + t]);
            }
        }
        lemma_read_coord_words(buf, 1, cursor, k);
        assert(decode_points_s(buf, 1 + 2 * (k.len() as int), k.last()) == Ok::<
            Seq<Point>,
            crate::geometry::GeomError,
        >(Seq::empty()));
        assert(k + Seq::<Point>::empty() =~= k);
    }
}

/// The vertices that decoding an encoded linestring or ring yields: the
/// kept chain, with a single surviving vertex duplicated by the explicit
/// zero delta.
pub open spec fn decoded_path_of(pts: Seq<Point>) -> Seq<Point>
    recommends
        pts.len() > 0,
{
    let k = kept_pts(pts);
    if k.len() == 1 {
        k.push(k[0])
    } else {
        k
    }
}

/// The cursor after encoding one path: its last input point.
pub open spec fn next_cursor(cursor: Point, pts: Seq<Point>) -> Point {
    if pts.len() == 0 {
        cursor
    } else {
        pts.last()
    }
}

/// The words that encoding several paths in sequence, on one encoder,
/// appends to the buffer.
pub open spec fn paths_words(cursor: Point, paths: Seq<Seq<Point>>, close: bool) -> Seq<u32>
    decreases paths.len(),
{
    if paths.len() == 0 {
        Seq::empty()
    } else {
        path_words(cursor, paths[0], close) + paths_words(
            next_cursor(cursor, paths[0]),
            paths.drop_first(),
            close,
        )
    }
}

/// Every path is non-empty, within the count limit, and every delta of
/// the running chain fits in an `i32`.
pub open spec fn paths_encodable(cursor: Point, paths: Seq<Seq<Point>>) -> bool
    decreases paths.len(),
{
    if paths.len() == 0 {
        true
    } else {
        &&& paths[0].len() > 0
        &&& paths[0].len() <= MAX_COMMAND_COUNT
        &&& chain_fits(cursor, paths[0])
        &&& paths_encodable(paths[0].last(), paths.drop_first())
    }
}

/// Decoding one encoded path at the head of the stream yields its
/// decoded vertices and continues behind it with the cursor on its last
/// point. `closed` selects ring parsing (with a ClosePath word) or
/// linestring parsing.
proof fn lemma_decode_path_step(buf: Seq<u32>, pos: int, c: Point, pts: Seq<Point>, closed: bool)
    requires
        pts.len() > 0,
        pts.len() <= MAX_COMMAND_COUNT,
        chain_fits(c, pts),
        0 <= pos,
        pos + path_words(c, pts, closed).len() <= buf.len(),
        buf.subrange(pos, pos + path_words(c, pts, closed).len()) == path_words(c, pts, closed),
    ensures
        ({
            let pw = path_words(c, pts, closed).len();
            if closed {
                parse_rings_s(buf, pos, c) == match parse_rings_s(buf, pos + pw, pts.last()) {
                    Ok(rest) => Ok::<Seq<Seq<Point>>, crate::geometry::GeomError>(
                        seq![decoded_path_of(pts)] + rest,
                    ),
                    Err(e) => Err(e),
                }
            } else {
                decode_linestrings_s(buf, pos, c) == match decode_linestrings_s(
                    buf,
                    pos + pw,
                    pts.last(),
                ) {
                    Ok(rest) => Ok::<Seq<Seq<Point>>, crate::geometry::GeomError>(
                        seq![decoded_path_of(pts)] + rest,
                    ),
                    Err(e) => Err(e),
                }
            }
        }),
{
    let k = kept_pts(pts);
    let tail = k.drop_first();
    lemma_kept_shape(pts);
    lemma_elide_len(pts[0], pts.drop_first());
    lemma_kept_chain(c, pts);
    lemma_coord_words_len(k[0], tail);
    let pw = path_words(c, pts, closed);
    let dx = (pts[0].0 - c.0) as i32;
    let dy = (pts[0].1 - c.1) as i32;
    let lineto = if tail.len() == 0 {
        seq![cmd_word(GEOM_COMMAND_LINE_TO, 1), 0u32, 0u32]
    } else {
        seq![cmd_word(GEOM_COMMAND_LINE_TO, tail.len() as u32)] + coord_words(k[0], tail)
    };
    assert(pw == seq![GEOM_COMMAND_MOVE_TO_WITH_COUNT1, zigzag_s(dx), zigzag_s(dy)] + lineto
        + if closed {
        seq![GEOM_COMMAND_CLOSE_PATH_WITH_COUNT1]
    } else {
        Seq::<u32>::empty()
    });
    let open_len: int = 4 + 2 * (if tail.len() == 0 {
        1int
    } else {
        tail.len() as int
    });
    assert(pw.len() == open_len + if closed {
        1int
    } else {
        0int
    });
    assert forall|t: int| 0 <= t < pw.len() implies buf[pos + t] == pw[t] by {
        assert(buf.subrange(pos, pos + pw.len())[t] == buf[pos + t]);
    }
    // MoveTo with count 1
    assert(pos < buf.len());
    assert(pw[0] == GEOM_COMMAND_MOVE_TO_WITH_COUNT1);
    assert(pw[1] == zigzag_s(dx));
    assert(pw[2] == zigzag_s(dy));
    assert(buf[pos + 0] == pw[0] && buf[pos + 1] == pw[1] && buf[pos + 2] == pw[2]);
    assert(buf[pos] == GEOM_COMMAND_MOVE_TO_WITH_COUNT1);
    assert(9u32 & 0x7 == 1u32 && 9u32 >> 3 == 1u32) by (bit_vector);
    // the first coordinate pair restores pts[0]
    assert(chain_idx_ok(c, pts, 0));
    lemma_zigzag_roundtrip(dx);
    lemma_zigzag_roundtrip(dy);
    assert(buf[pos + 1] == zigzag_s(dx) && buf[pos + 2] == zigzag_s(dy));
    assert(step_pt(c, buf[pos + 1], buf[pos + 2]) == pts[0]);
    assert(read_coords_s(buf, pos + 1, c, 1) == (seq![pts[0]], pts[0])) by {
        assert(read_coords_s(buf, pos + 3, pts[0], 0) == (Seq::<Point>::empty(), pts[0]));
        assert(seq![pts[0]] + Seq::<Point>::empty() =~= seq![pts[0]]);
    }
    let p1 = pos + 3;
    assert(p1 < buf.len());
    if tail.len() == 0 {
        let w2 = cmd_word(GEOM_COMMAND_LINE_TO, 1);
        assert(pw[3] == w2 && pw[4] == 0u32 && pw[5] == 0u32);
        assert(buf[pos + 3] == pw[3] && buf[pos + 4] == pw[4] && buf[pos + 5] == pw[5]);
        assert(buf[p1] == w2);
        lemma_cmd_word_bits(GEOM_COMMAND_LINE_TO, 1);
        assert(p1 + 1 + 2 <= buf.len());
        assert(buf[p1 + 1] == 0u32 && buf[p1 + 2] == 0u32);
        assert(unzigzag_s(0) == 0);
        assert(step_pt(pts[0], 0, 0) == pts[0]);
        assert(read_coords_s(buf, p1 + 1, pts[0], 1) == (seq![pts[0]], pts[0])) by {
            assert(read_coords_s(buf, p1 + 3, pts[0], 0) == (Seq::<Point>::empty(), pts[0]));
            assert(seq![pts[0]] + Seq::<Point>::empty() =~= seq![pts[0]]);
        }
        assert(seq![pts[0]] + seq![pts[0]] =~= decoded_path_of(pts));
        assert(k.last() == pts.last());
        assert(pts[0] == pts.last());
        if closed {
            assert(pw[6] == GEOM_COMMAND_CLOSE_PATH_WITH_COUNT1);
            assert(buf[pos + 6] == pw[6]);
            assert(buf[p1 + 3] == GEOM_COMMAND_CLOSE_PATH_WITH_COUNT1);
            assert(15u32 & 0x7 == 7u32) by (bit_vector);
            assert(p1 + 3 < buf.len());
        }
    } else {
        let w2 = cmd_word(GEOM_COMMAND_LINE_TO, tail.len() as u32);
        assert(pw[3] == w2);
        assert(buf[pos + 3] == pw[3]);
        assert(buf[p1] == w2);
        lemma_cmd_word_bits(GEOM_COMMAND_LINE_TO, tail.len() as u32);
        assert((w2 >> 3) as nat == tail.len());
        assert(p1 + 1 + 2 * (tail.len() as int) <= buf.len());
        lemma_chain_fits_drop(c, k);
        assert(buf.subrange(p1 + 1, p1 + 1 + 2 * (tail.len() as int)) =~= coord_words(
            k[0],
            tail,
        )) by {
            assert forall|t: int|
                0 <= t < 2 * tail.len() implies buf[p1 + 1 + t] == coord_words(k[0], tail)[t] by {
                assert(buf.subrange(p1 + 1, p1 + 1 + 2 * (tail.len() as int))[t] == buf[p1 + 1
                    + t]);
                assert(buf[pos + (4 + t)] == pw[4 + t]);
                assert(pw[4 + t] == lineto[1 + t]);
                assert(lineto[1 + t] == coord_words(k[0], tail)[t]);
            }
        }
        lemma_read_coord_words(buf, p1 + 1, k[0], tail);
        assert(read_coords_s(buf, p1 + 1, pts[0], tail.len() as nat) == (tail, tail.last()));
        assert(seq![pts[0]] + tail =~= k);
        assert(decoded_path_of(pts) == k);
        assert(tail.last() == k.last());
        assert(k.last() == pts.last());
        if closed {
            assert(pw[open_len] == GEOM_COMMAND_CLOSE_PATH_WITH_COUNT1);
            assert(buf[pos + open_len] == pw[open_len]);
            assert(buf[pos + open_len] == GEOM_COMMAND_CLOSE_PATH_WITH_COUNT1);
            assert(15u32 & 0x7 == 7u32) by (bit_vector);
            assert(pos + open_len < buf.len());
        }
    }
}

/// Decoding the concatenated encodings of several linestrings (or rings,
/// with `closed`) that fill the buffer from `pos` to its end yields each
/// path's decoded vertices in order.
proof fn lemma_paths_roundtrip_gen(
    buf: Seq<u32>,
    pos: int,
    cursor: Point,
    paths: Seq<Seq<Point>>,
    closed: bool,
)
    requires
        paths_encodable(cursor, paths),
        0 <= pos,
        pos + paths_words(cursor, paths, closed).len() == buf.len(),
        buf.subrange(pos, buf.len() as int) == paths_words(cursor, paths, closed),
    ensures
        ({
            let decoded = Seq::new(paths.len(), |i: int| decoded_path_of(paths[i]));
            if closed {
                parse_rings_s(buf, pos, cursor) == Ok::<
                    Seq<Seq<Point>>,
                    crate::geometry::GeomError,
                >(decoded)
            } else {
                decode_linestrings_s(buf, pos, cursor) == Ok::<
                    Seq<Seq<Point>>,
                    crate::geometry::GeomError,
                >(decoded)
            }
        }),
    decreases paths.len(),
{
    let decoded = Seq::new(paths.len(), |i: int| decoded_path_of(paths[i]));
    if paths.len() == 0 {
        assert(pos == buf.len());
        assert(decoded =~= Seq::<Seq<Point>>::empty());
    } else {
        let p0 = paths[0];
        let pw0 = path_words(cursor, p0, closed);
        let rest_words = paths_words(p0.last(), paths.drop_first(), closed);
        assert(paths_words(cursor, paths, closed) == pw0 + rest_words);
        assert forall|t: int|
            0 <= t < pw0.len() + rest_words.len() implies buf[pos + t] == (pw0 + rest_words)[t] by {
            assert(buf.subrange(pos, buf.len() as int)[t] == buf[pos + t]);
        }
        assert(buf.subrange(pos, pos + pw0.len()) =~= pw0);
        lemma_decode_path_step(buf, pos, cursor, p0, closed);
        assert(buf.subrange(pos + pw0.len(), buf.len() as int) =~= rest_words) by {
            assert forall|t: int|
                0 <= t < rest_words.len() implies buf[pos + pw0.len() + t] == rest_words[t] by {
                assert(buf.subrange(pos + pw0.len(), buf.len() as int)[t] == buf[pos + pw0.len()
                    + t]);
                assert((pw0 + rest_words)[pw0.len() + t] == rest_words[t]);
            }
        }
        lemma_paths_roundtrip_gen(buf, pos + pw0.len(), p0.last(), paths.drop_first(), closed);
        let rest_decoded = Seq::new(
            paths.drop_first().len(),
            |i: int| decoded_path_of(paths.drop_first()[i]),
        );
        assert(seq![decoded_path_of(p0)] + rest_decoded =~= decoded);
    }
}

/// Geometry round-trip for linestrings: decoding the encoding of a
/// sequence of linestrings yields, for each, its vertices with
/// consecutive duplicates elided (a fully collapsed linestring keeps its
/// single vertex twice, from the explicit zero delta).
pub proof fn lemma_linestrings_roundtrip(cursor: Point, paths: Seq<Seq<Point>>)
    requires
        paths_encodable(cursor, paths),
    ensures
        decode_linestrings_s(paths_words(cursor, paths, false), 0, cursor) == Ok::<
            Seq<Seq<Point>>,
            crate::geometry::GeomError,
        >(Seq::new(paths.len(), |i: int| decoded_path_of(paths[i]))),
{
    let buf = paths_words(cursor, paths, false);
    assert(buf.subrange(0, buf.len() as int) =~= buf);
    lemma_paths_roundtrip_gen(buf, 0, cursor, paths, false);
}

/// Geometry round-trip for polygon rings: decoding the encoding of a
/// sequence of rings parses each ring back (with consecutive duplicates
/// elided) and regroups the rings by their signed-area orientation.
pub proof fn lemma_polygons_roundtrip(cursor: Point, rings: Seq<Seq<Point>>)
    requires
        paths_encodable(cursor, rings),
    ensures
        parse_rings_s(paths_words(cursor, rings, true), 0, cursor) == Ok::<
            Seq<Seq<Point>>,
            crate::geometry::GeomError,
        >(Seq::new(rings.len(), |i: int| decoded_path_of(rings[i]))),
        decode_polygons_s(paths_words(cursor, rings, true), 0, cursor) == Ok::<
            Seq<Seq<Seq<Point>>>,
            crate::geometry::GeomError,
        >(group_rings_s(Seq::new(rings.len(), |i: int| decoded_path_of(rings[i])), Seq::empty())),
{
    let buf = paths_words(cursor, rings, true);
    assert(buf.subrange(0, buf.len() as int) =~= buf);
    lemma_paths_roundtrip_gen(buf, 0, cursor, rings, true);
}

} // verus!
