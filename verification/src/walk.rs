//! Walk sampling and line rendering.
//!
//! A walk is a fixed six-hop cycle, dog to food to ingredient to flavor
//! and back, repeated `walks_per_line` times; each cycle starts where the
//! previous one ended.  A line renders the visited codes as three-byte
//! tokens separated by single spaces and terminated by one newline.

use crate::codec::{encode3, lemma_b64_char_plain};
use crate::error::Error;
use crate::mapping::Mapping;
use crate::rng::WalkRng;
use vstd::prelude::*;

verus! {

/// Hop number `step` of a walk goes through one fixed table of the
/// six-hop cycle; the hop is valid when `to` stands in `from`'s list.
pub open spec fn hop_ok(m: Mapping, step: int, from: u16, to: u16) -> bool {
    let t = step % 6;
    if t == 0 {
        from < m.n_dogs() && m.dog_food()[from as int].contains(to)
    } else if t == 1 {
        from < m.n_foods() && m.food_ingredient()[from as int].contains(to)
    } else if t == 2 {
        from < m.n_ingredients() && m.ingredient_flavor()[from as int].contains(to)
    } else if t == 3 {
        from < m.n_flavors() && m.flavor_ingredient()[from as int].contains(to)
    } else if t == 4 {
        from < m.n_ingredients() && m.ingredient_food()[from as int].contains(to)
    } else {
        from < m.n_foods() && m.food_dog()[from as int].contains(to)
    }
}

/// The code sequence of a valid walk starting at `dog`.
pub open spec fn is_walk(m: Mapping, dog: u16, cs: Seq<u16>) -> bool {
    &&& cs.len() >= 1
    &&& cs[0] == dog
    &&& forall|j: int| 0 <= j < cs.len() - 1 ==> hop_ok(m, j, cs[j], #[trigger] cs[j + 1])
}

/// The codes rendered as three-byte tokens, each followed by one space.
pub open spec fn render_spaced(cs: Seq<u16>) -> Seq<u8>
    decreases cs.len(),
{
    if cs.len() == 0 {
        Seq::empty()
    } else {
        render_spaced(cs.drop_last()) + encode3(cs.last()) + seq![32u8]
    }
}

/// A finished line: the last separator becomes the newline.
pub open spec fn render_line(cs: Seq<u16>) -> Seq<u8> {
    render_spaced(cs).update(render_spaced(cs).len() - 1, 10u8)
}

pub proof fn lemma_render_len(cs: Seq<u16>)
    ensures
        render_spaced(cs).len() == 4 * cs.len(),
    decreases cs.len(),
{
    if cs.len() > 0 {
        lemma_render_len(cs.drop_last());
    }
}

/// The number of occurrences of `b`.
pub open spec fn count_byte(s: Seq<u8>, b: u8) -> int
    decreases s.len(),
{
    if s.len() == 0 {
        0
    } else {
        count_byte(s.drop_last(), b) + if s.last() == b {
            1int
        } else {
            0int
        }
    }
}

pub proof fn lemma_count_concat(a: Seq<u8>, b: Seq<u8>, byte: u8)
    ensures
        count_byte(a + b, byte) == count_byte(a, byte) + count_byte(b, byte),
    decreases b.len(),
{
    if b.len() == 0 {
        assert(a + b =~= a);
    } else {
        assert((a + b).drop_last() =~= a + b.drop_last());
        assert((a + b).last() == b.last());
        lemma_count_concat(a, b.drop_last(), byte);
    }
}

/// A token holds no space, newline or comma.
pub proof fn lemma_count_token(code: u16, byte: u8)
    requires
        byte == 32 || byte == 10 || byte == 44,
    ensures
        count_byte(encode3(code), byte) == 0,
{
    reveal_with_fuel(count_byte, 5);
    let t = encode3(code);
    let lo = code as int % 256;
    let hi = code as int / 256;
    lemma_b64_char_plain(lo / 4);
    lemma_b64_char_plain((lo % 4) * 16 + hi / 16);
    lemma_b64_char_plain((hi % 16) * 4);
    assert(t.drop_last() =~= seq![t[0], t[1]]);
    assert(t.drop_last().drop_last() =~= seq![t[0]]);
    assert(seq![t[0]].drop_last() =~= Seq::<u8>::empty());
}

pub proof fn lemma_render_spaced_counts(cs: Seq<u16>)
    ensures
        count_byte(render_spaced(cs), 32) == cs.len(),
        count_byte(render_spaced(cs), 10) == 0,
        cs.len() >= 1 ==> render_spaced(cs).last() == 32,
    decreases cs.len(),
{
    reveal_with_fuel(count_byte, 3);
    if cs.len() > 0 {
        lemma_render_spaced_counts(cs.drop_last());
        let prior = render_spaced(cs.drop_last());
        let tok = encode3(cs.last());
        lemma_count_token(cs.last(), 32);
        lemma_count_token(cs.last(), 10);
        lemma_count_concat(prior, tok, 32);
        lemma_count_concat(prior + tok, seq![32u8], 32);
        lemma_count_concat(prior, tok, 10);
        lemma_count_concat(prior + tok, seq![32u8], 10);
        assert(count_byte(seq![32u8], 32) == 1) by {
            assert(seq![32u8].drop_last() =~= Seq::<u8>::empty());
        }
        assert(count_byte(seq![32u8], 10) == 0) by {
            assert(seq![32u8].drop_last() =~= Seq::<u8>::empty());
        }
        assert(render_spaced(cs) == (prior + tok) + seq![32u8]);
        assert(render_spaced(cs).last() == 32);
    }
}

/// Line shape invariant: a line of `n` codes is `4 * n` bytes, holds
/// exactly `n` space-separated tokens — `n - 1` separating spaces — and
/// ends in exactly one newline, its final byte.
pub proof fn lemma_line_shape(cs: Seq<u16>)
    requires
        cs.len() >= 1,
    ensures
        render_line(cs).len() == 4 * cs.len(),
        count_byte(render_line(cs), 32) == cs.len() - 1,
        count_byte(render_line(cs), 10) == 1,
        render_line(cs).last() == 10,
{
    reveal_with_fuel(count_byte, 3);
    lemma_render_len(cs);
    lemma_render_spaced_counts(cs);
    let s = render_spaced(cs);
    let l = render_line(cs);
    assert(l =~= s.drop_last().push(10u8));
    assert(s =~= s.drop_last().push(32u8));
    lemma_count_concat(s.drop_last(), seq![32u8], 32);
    lemma_count_concat(s.drop_last(), seq![32u8], 10);
    lemma_count_concat(s.drop_last(), seq![10u8], 32);
    lemma_count_concat(s.drop_last(), seq![10u8], 10);
    assert(s.drop_last() + seq![32u8] =~= s.drop_last().push(32u8));
    assert(s.drop_last() + seq![10u8] =~= s.drop_last().push(10u8));
    assert(count_byte(seq![32u8], 32) == 1 && count_byte(seq![32u8], 10) == 0 && count_byte(
        seq![10u8],
        10,
    ) == 1 && count_byte(seq![10u8], 32) == 0) by {
        assert(seq![32u8].drop_last() =~= Seq::<u8>::empty());
        assert(seq![10u8].drop_last() =~= Seq::<u8>::empty());
    }
}

/// The first token of a line is the token of its first code.
pub proof fn lemma_line_first_token(cs: Seq<u16>)
    requires
        cs.len() >= 1,
    ensures
        render_line(cs).subrange(0, 3) == encode3(cs[0]),
    decreases cs.len(),
{
    lemma_render_len(cs);
    let s = render_spaced(cs);
    assert(render_line(cs).subrange(0, 3) =~= s.subrange(0, 3));
    lemma_render_spaced_first(cs);
}

pub proof fn lemma_render_spaced_first(cs: Seq<u16>)
    requires
        cs.len() >= 1,
    ensures
        render_spaced(cs).subrange(0, 3) == encode3(cs[0]),
    decreases cs.len(),
{
    lemma_render_len(cs);
    if cs.len() == 1 {
        assert(render_spaced(cs.drop_last()) =~= Seq::<u8>::empty());
        assert(render_spaced(cs).subrange(0, 3) =~= encode3(cs[0]));
    } else {
        lemma_render_spaced_first(cs.drop_last());
        lemma_render_len(cs.drop_last());
        assert(cs.drop_last()[0] == cs[0]);
        assert(render_spaced(cs).subrange(0, 3) =~= render_spaced(cs.drop_last()).subrange(0, 3));
    }
}

/// Extending a valid walk by one valid hop keeps it valid, and appends
/// one token to its rendering.
proof fn lemma_extend_walk(m: Mapping, dog: u16, prev: Seq<u16>, c: u16)
    requires
        is_walk(m, dog, prev),
        hop_ok(m, prev.len() - 1, prev.last(), c),
    ensures
        is_walk(m, dog, prev.push(c)),
        render_spaced(prev.push(c)) == render_spaced(prev) + encode3(c) + seq![32u8],
{
    let cs = prev.push(c);
    assert(cs.drop_last() =~= prev);
    assert forall|j: int| 0 <= j < cs.len() - 1 implies hop_ok(m, j, cs[j], #[trigger] cs[j + 1]) by {
        if j < prev.len() - 1 {
            assert(hop_ok(m, j, prev[j], prev[j + 1]));
            assert(cs[j] == prev[j] && cs[j + 1] == prev[j + 1]);
        } else {
            assert(cs[j] == prev.last());
            assert(cs[j + 1] == c);
        }
    }
}

/// Append one token and its separating space.
fn push_token(line: &mut Vec<u8>, tok: [u8; 3])
    ensures
        final(line)@ == old(line)@ + tok@ + seq![32u8],
{
    line.push(tok[0]);
    line.push(tok[1]);
    line.push(tok[2]);
    line.push(32u8);
    proof {
        assert(tok@ =~= seq![tok@[0], tok@[1], tok@[2]]);
        assert(line@ =~= old(line)@ + tok@ + seq![32u8]);
    }
}

/// Sample one line: a continuous random walk of `walks_per_line` six-hop
/// cycles from `dog`, rendered as space-separated tokens with a final
/// newline.  Succeeds for every dog code of the model; the only error is
/// `UnknownCode`, for a code outside it.
pub fn get_line(walks_per_line: u8, dog: u16, maps: &Mapping, rng: &mut WalkRng) -> (r: Result<
    Vec<u8>,
    Error,
>)
    requires
        walks_per_line >= 1,
    ensures
        match r {
            Ok(line) => dog < maps.n_dogs() && exists|cs: Seq<u16>|
                #[trigger] is_walk(*maps, dog, cs) && cs.len() == 1 + 6 * (walks_per_line as int)
                    && line@ == render_line(cs),
            Err(e) => e == Error::UnknownCode && dog >= maps.n_dogs(),
        },
{
    proof {
        use_type_invariant(maps);
    }
    if maps.dog_food_map().len() <= dog as usize {
        return Err(Error::UnknownCode);
    }
    let ghost mut cs: Seq<u16> = seq![dog];
    let mut line: Vec<u8> = Vec::new();
    let tok = maps.id(dog);
    push_token(&mut line, tok);
    proof {
        assert(cs.drop_last() =~= Seq::<u16>::empty());
        assert(render_spaced(cs) == render_spaced(cs.drop_last()) + encode3(dog) + seq![32u8]);
        assert(line@ =~= render_spaced(cs));
    }
    let w = walks_per_line as usize;
    let mut cur: u16 = dog;
    let mut wi: usize = 0;
    while wi < w
        invariant
            w == walks_per_line as int,
            walks_per_line >= 1,
            0 <= wi <= w,
            maps.consistent(),
            dog < maps.n_dogs(),
            cur < maps.n_dogs(),
            cs.len() == 1 + 6 * wi,
            cs[0] == dog,
            cs.last() == cur,
            is_walk(*maps, dog, cs),
            line@ == render_spaced(cs),
        decreases w - wi,
    {
        let ghost base: int = 6 * (wi as int);

        let food = match maps.food_liked_by_dog(cur, rng) {
            Ok(f) => f,
            Err(_) => {
                proof {
                    assert(false);
                }
                return Err(Error::UnknownCode);
            },
        };
        proof {
            assert(base % 6 == 0) by (nonlinear_arith)
                requires
                    base == 6 * (wi as int),
            ;
            assert(cs.len() - 1 == base);
            assert(hop_ok(*maps, cs.len() - 1, cs.last(), food));
            lemma_extend_walk(*maps, dog, cs, food);
            cs = cs.push(food);
        }
        let tok = maps.id(food);
        push_token(&mut line, tok);
        proof {
            assert(line@ == render_spaced(cs));
        }

        let ing = match maps.ingredient_in_food(food, rng) {
            Ok(g) => g,
            Err(_) => {
                proof {
                    assert(false);
                }
                return Err(Error::UnknownCode);
            },
        };
        proof {
            assert((base + 1) % 6 == 1) by (nonlinear_arith)
                requires
                    base == 6 * (wi as int),
            ;
            assert(cs.len() - 1 == base + 1);
            assert(hop_ok(*maps, cs.len() - 1, cs.last(), ing));
            lemma_extend_walk(*maps, dog, cs, ing);
            cs = cs.push(ing);
        }
        let tok = maps.id(ing);
        push_token(&mut line, tok);
        proof {
            assert(line@ == render_spaced(cs));
        }

        let flav = match maps.flavor_for_ingredient(ing, rng) {
            Ok(v) => v,
            Err(_) => {
                proof {
                    assert(false);
                }
                return Err(Error::UnknownCode);
            },
        };
        proof {
            assert((base + 2) % 6 == 2) by (nonlinear_arith)
                requires
                    base == 6 * (wi as int),
            ;
            assert(cs.len() - 1 == base + 2);
            assert(hop_ok(*maps, cs.len() - 1, cs.last(), flav));
            lemma_extend_walk(*maps, dog, cs, flav);
            cs = cs.push(flav);
        }
        let tok = maps.id(flav);
        push_token(&mut line, tok);
        proof {
            assert(line@ == render_spaced(cs));
        }

        let ing2 = match maps.ingredient_with_flavor(flav, rng) {
            Ok(g) => g,
            Err(_) => {
                proof {
                    assert(false);
                }
                return Err(Error::UnknownCode);
            },
        };
        proof {
            assert((base + 3) % 6 == 3) by (nonlinear_arith)
                requires
                    base == 6 * (wi as int),
            ;
            assert(cs.len() - 1 == base + 3);
            assert(hop_ok(*maps, cs.len() - 1, cs.last(), ing2));
            lemma_extend_walk(*maps, dog, cs, ing2);
            cs = cs.push(ing2);
        }
        let tok = maps.id(ing2);
        push_token(&mut line, tok);
        proof {
            assert(line@ == render_spaced(cs));
        }

        let food2 = match maps.food_with_ingredient(ing2, rng) {
            Ok(f) => f,
            Err(_) => {
                proof {
                    assert(false);
                }
                return Err(Error::UnknownCode);
            },
        };
        proof {
            assert((base + 4) % 6 == 4) by (nonlinear_arith)
                requires
                    base == 6 * (wi as int),
            ;
            assert(cs.len() - 1 == base + 4);
            assert(hop_ok(*maps, cs.len() - 1, cs.last(), food2));
            lemma_extend_walk(*maps, dog, cs, food2);
            cs = cs.push(food2);
        }
        let tok = maps.id(food2);
        push_token(&mut line, tok);
        proof {
            assert(line@ == render_spaced(cs));
        }

        let dog2 = match maps.dog_that_likes_food(food2, rng) {
            Ok(d) => d,
            Err(_) => {
                proof {
                    assert(false);
                }
                return Err(Error::UnknownCode);
            },
        };
        proof {
            assert((base + 5) % 6 == 5) by (nonlinear_arith)
                requires
                    base == 6 * (wi as int),
            ;
            assert(cs.len() - 1 == base + 5);
            assert(hop_ok(*maps, cs.len() - 1, cs.last(), dog2));
            lemma_extend_walk(*maps, dog, cs, dog2);
            cs = cs.push(dog2);
        }
        let tok = maps.id(dog2);
        push_token(&mut line, tok);
        proof {
            assert(line@ == render_spaced(cs));
        }

        cur = dog2;
        wi = wi + 1;
    }
    proof {
        lemma_render_len(cs);
    }
    let last = line.len() - 1;
    line.set(last, 10u8);
    proof {
        assert(line@ == render_line(cs));
        assert(is_walk(*maps, dog, cs) && cs.len() == 1 + 6 * (walks_per_line as int) && line@
            == render_line(cs));
    }
    Ok(line)
}

/// The byte length of one line of `w` cycles: `1 + 6 w` four-byte
/// token-and-separator groups.
pub open spec fn line_len(w: int) -> int {
    4 * (1 + 6 * w)
}

/// The bytes of line slot `s` of a corpus.
pub open spec fn slot_bytes(out: Seq<u8>, w: int, s: int) -> Seq<u8> {
    out.subrange(s * line_len(w), (s + 1) * line_len(w))
}

/// Line slot `s` holds a rendered walk of `1 + 6 w` codes starting at
/// the dog of its block, dog number `s / lpd`.
pub open spec fn slot_ok(m: Mapping, out: Seq<u8>, lpd: int, w: int, s: int) -> bool {
    exists|cs: Seq<u16>|
        #[trigger] is_walk(m, (s / lpd) as u16, cs) && cs.len() == 1 + 6 * w && slot_bytes(
            out,
            w,
            s,
        ) == render_line(cs)
}

/// Build the whole corpus: for each dog code in ascending order,
/// `lines_per_dog` independent lines, each from its own entropy-seeded
/// random source.  The output is the concatenation of the per-dog blocks
/// in code order.
///
/// `IOError` can come only from the entropy source, which is drawn once
/// per line; a model with no dogs needs no lines, so an empty model
/// always yields the empty corpus.  No other error is possible.
pub fn build_corpus(maps: &Mapping, lines_per_dog: u8, walks_per_line: u8) -> (r: Result<
    Vec<u8>,
    Error,
>)
    requires
        lines_per_dog >= 1,
        walks_per_line >= 1,
    ensures
        match r {
            Ok(out) => out@.len() == maps.n_dogs() * (lines_per_dog as int) * line_len(
                walks_per_line as int,
            ) && forall|s: int|
                0 <= s < maps.n_dogs() * (lines_per_dog as int) ==> slot_ok(
                    *maps,
                    out@,
                    lines_per_dog as int,
                    walks_per_line as int,
                    s,
                ),
            Err(e) => e == Error::IOError && maps.n_dogs() >= 1,
        },
{
    proof {
        use_type_invariant(maps);
    }
    let ghost lpd: int = lines_per_dog as int;
    let ghost w: int = walks_per_line as int;
    let ghost ll: int = line_len(w);
    let n = maps.dog_food_map().len();
    let mut out: Vec<u8> = Vec::new();
    let ghost mut t: int = 0;
    let mut d: usize = 0;
    while d < n
        invariant
            n == maps.n_dogs(),
            n <= 0x10000,
            lines_per_dog >= 1,
            walks_per_line >= 1,
            lpd == lines_per_dog as int,
            w == walks_per_line as int,
            ll == line_len(w),
            maps.consistent(),
            0 <= d <= n,
            t == d * lpd,
            out@.len() == t * ll,
            forall|s: int| 0 <= s < t ==> slot_ok(*maps, out@, lpd, w, s),
        decreases n - d,
    {
        let mut i: usize = 0;
        let il = lines_per_dog as usize;
        while i < il
            invariant
                n == maps.n_dogs(),
                n <= 0x10000,
                lines_per_dog >= 1,
                walks_per_line >= 1,
                il == lines_per_dog as int,
                lpd == lines_per_dog as int,
                w == walks_per_line as int,
                ll == line_len(w),
                maps.consistent(),
                0 <= d < n,
                0 <= i <= il,
                t == d * lpd + i,
                out@.len() == t * ll,
                forall|s: int| 0 <= s < t ==> slot_ok(*maps, out@, lpd, w, s),
            decreases il - i,
        {
            let mut rng = match WalkRng::new() {
                Some(r) => r,
                None => {
                    return Err(Error::IOError);
                },
            };
            let mut line = match get_line(walks_per_line, d as u16, maps, &mut rng) {
                Ok(l) => l,
                Err(_) => {
                    proof {
                        assert(false);
                    }
                    return Err(Error::IOError);
                },
            };
            let ghost old_out = out@;
            let ghost line_v = line@;
            let ghost cs_here = choose|cs: Seq<u16>|
                is_walk(*maps, d as u16, cs) && cs.len() == 1 + 6 * w && line_v == render_line(cs);
            out.append(&mut line);
            proof {
                lemma_render_len(cs_here);
                assert(line_v.len() == ll);
                assert((t + 1) * ll == t * ll + ll) by (nonlinear_arith);
                assert(out@.len() == (t + 1) * ll);
                assert(t / lpd == d) by (nonlinear_arith)
                    requires
                        t == d * lpd + i,
                        0 <= i < lpd,
                        lpd >= 1,
                        d >= 0,
                ;
                assert forall|s: int| 0 <= s < t + 1 implies slot_ok(*maps, out@, lpd, w, s) by {
                    if s < t {
                        assert(slot_ok(*maps, old_out, lpd, w, s));
                        let cs_s = choose|cs: Seq<u16>|
                            #[trigger] is_walk(*maps, (s / lpd) as u16, cs) && cs.len() == 1 + 6 * w
                                && slot_bytes(old_out, w, s) == render_line(cs);
                        assert((s + 1) * ll <= t * ll) by (nonlinear_arith)
                            requires
                                s + 1 <= t,
                                ll >= 0,
                        ;
                        assert(s * ll >= 0) by (nonlinear_arith)
                            requires
                                s >= 0,
                                ll >= 0,
                        ;
                        assert(s * ll + ll == (s + 1) * ll) by (nonlinear_arith);
                        assert(out@ == old_out + line_v);
                        assert forall|k: int| 0 <= k < ll implies #[trigger] out@[s * line_len(w)
                            + k] == old_out[s * line_len(w) + k] by {
                            assert(s * line_len(w) + k < t * ll);
                        }
                        assert(slot_bytes(out@, w, s) =~= slot_bytes(old_out, w, s));
                        assert(is_walk(*maps, (s / lpd) as u16, cs_s) && cs_s.len() == 1 + 6 * w
                            && slot_bytes(out@, w, s) == render_line(cs_s));
                    } else {
                        assert(t * ll >= 0) by (nonlinear_arith)
                            requires
                                t >= 0,
                                ll >= 0,
                        ;
                        assert(slot_bytes(out@, w, t) =~= line_v);
                        assert(is_walk(*maps, (t / lpd) as u16, cs_here) && cs_here.len() == 1 + 6
                            * w && slot_bytes(out@, w, t) == render_line(cs_here));
                    }
                }
                t = t + 1;
            }
            i = i + 1;
        }
        proof {
            assert(d * lpd + lpd == (d + 1) * lpd) by (nonlinear_arith);
            t = (d + 1) * lpd;
        }
        d = d + 1;
    }
    proof {
        assert(n * lpd * ll == t * ll) by (nonlinear_arith)
            requires
                t == n * lpd,
        ;
    }
    Ok(out)
}

/// Dog block ordering: the corpus is blocks of `lpd` contiguous lines;
/// the first token of every line of block `d` renders dog code `d`, so
/// the starting dog codes are non-decreasing from block to block.
pub proof fn lemma_dog_block_ordering(
    m: Mapping,
    out: Seq<u8>,
    lpd: int,
    w: int,
    s1: int,
    s2: int,
)
    requires
        lpd >= 1,
        w >= 1,
        0 <= s1 <= s2,
        slot_ok(m, out, lpd, w, s1),
        slot_ok(m, out, lpd, w, s2),
    ensures
        s1 / lpd <= s2 / lpd,
        slot_bytes(out, w, s1).subrange(0, 3) == encode3((s1 / lpd) as u16),
        slot_bytes(out, w, s2).subrange(0, 3) == encode3((s2 / lpd) as u16),
{
    assert(s1 / lpd <= s2 / lpd) by (nonlinear_arith)
        requires
            0 <= s1 <= s2,
            lpd >= 1,
    ;
    let cs1 = choose|cs: Seq<u16>|
        #[trigger] is_walk(m, (s1 / lpd) as u16, cs) && cs.len() == 1 + 6 * w && slot_bytes(
            out,
            w,
            s1,
        ) == render_line(cs);
    lemma_line_first_token(cs1);
    let cs2 = choose|cs: Seq<u16>|
        #[trigger] is_walk(m, (s2 / lpd) as u16, cs) && cs.len() == 1 + 6 * w && slot_bytes(
            out,
            w,
            s2,
        ) == render_line(cs);
    lemma_line_first_token(cs2);
}

/// Determinism of structure: two corpora from the same model and the
/// same configuration have the same byte length, and every line slot of
/// both has the same shape — `4 (1 + 6 w)` bytes, `6 w` spaces, one
/// final newline.  Only the token values may differ, because sampling is
/// unseeded.
pub proof fn lemma_structure_deterministic(
    m: Mapping,
    out1: Seq<u8>,
    out2: Seq<u8>,
    lpd: int,
    w: int,
    total: int,
)
    requires
        lpd >= 1,
        w >= 1,
        total >= 0,
        out1.len() == total * lpd * line_len(w),
        out2.len() == total * lpd * line_len(w),
        forall|s: int| 0 <= s < total * lpd ==> slot_ok(m, out1, lpd, w, s),
        forall|s: int| 0 <= s < total * lpd ==> slot_ok(m, out2, lpd, w, s),
    ensures
        out1.len() == out2.len(),
        forall|s: int|
            0 <= s < total * lpd ==> slot_bytes(out1, w, s).len() == line_len(w) && slot_bytes(
                out2,
                w,
                s,
            ).len() == line_len(w) && count_byte(slot_bytes(out1, w, s), 32) == 6 * w && count_byte(
                slot_bytes(out2, w, s),
                32,
            ) == 6 * w && count_byte(slot_bytes(out1, w, s), 10) == 1 && count_byte(
                slot_bytes(out2, w, s),
                10,
            ) == 1,
{
    assert forall|s: int|
        0 <= s < total * lpd implies slot_bytes(out1, w, s).len() == line_len(w) && slot_bytes(
        out2,
        w,
        s,
    ).len() == line_len(w) && count_byte(slot_bytes(out1, w, s), 32) == 6 * w && count_byte(
        slot_bytes(out2, w, s),
        32,
    ) == 6 * w && count_byte(slot_bytes(out1, w, s), 10) == 1 && count_byte(
        slot_bytes(out2, w, s),
        10,
    ) == 1 by {
        assert(slot_ok(m, out1, lpd, w, s));
        assert(slot_ok(m, out2, lpd, w, s));
        let cs1 = choose|cs: Seq<u16>|
            #[trigger] is_walk(m, (s / lpd) as u16, cs) && cs.len() == 1 + 6 * w && slot_bytes(
                out1,
                w,
                s,
            ) == render_line(cs);
        lemma_line_shape(cs1);
        lemma_render_len(cs1);
        let cs2 = choose|cs: Seq<u16>|
            #[trigger] is_walk(m, (s / lpd) as u16, cs) && cs.len() == 1 + 6 * w && slot_bytes(
                out2,
                w,
                s,
            ) == render_line(cs);
        lemma_line_shape(cs2);
        lemma_render_len(cs2);
    }
}

} // verus!
