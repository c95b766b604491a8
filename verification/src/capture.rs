use vstd::prelude::*;
use crate::film::{Film, Pixel, PixelBuffer, pixel_offset};

verus! {

/// Calls `num_cpus::get`, the number of logical CPUs available to the
/// current process. Its documentation promises a value of at least 1; the
/// actual count depends on the machine and is not stated.
#[verifier::external_body]
fn num_cpus_get() -> (r: usize)
    ensures
        r >= 1,
{
    num_cpus::get()
}

/// Number of parallel render threads to use when none is configured: as many
/// as the machine offers.
pub fn get_max_threads() -> (r: usize)
    ensures
        r >= 1,
{
    num_cpus_get()
}

/// Number of render workers for a scene configured with `threads` on a
/// machine with `cpus` CPUs: the configured number, or all the CPUs when it
/// is zero.
pub fn barrel_count_from(threads: usize, cpus: usize) -> (r: usize)
    ensures
        r == (if threads == 0 { cpus } else { threads }),
{
    if threads == 0 {
        cpus
    } else {
        threads
    }
}

/// Number of render workers for a scene configured with `threads`: the
/// configured number, or all available CPUs when it is zero.
pub fn barrel_count(threads: usize) -> (r: usize)
    ensures
        threads != 0 ==> r == threads,
        threads == 0 ==> r >= 1,
{
    if threads == 0 {
        barrel_count_from(threads, get_max_threads())
    } else {
        barrel_count_from(threads, 0)
    }
}

/// Pixel offset `o` belongs to render subset `k` of `n`: subset `k` covers
/// every `n`th pixel starting with pixel `k`, in row-major order.
pub open spec fn in_subset(o: int, k: int, n: int) -> bool {
    o >= k && (o - k) % n == 0
}

/// Capture subset `k` of `n` of the image onto `film`: every `n`th pixel of
/// the row-major pixel buffer starting with pixel `k`. Each such pixel gets
/// the colour that `shade` computes for its `x`/`y` position; the other
/// pixels are left as they are.
pub fn capture_subset<S: Fn(u32, u32) -> Pixel>(k: usize, n: usize, film: &mut Film, shade: &S)
    requires
        n >= 1,
        old(film).wf(),
        forall|x: u32, y: u32| call_requires(*shade, (x, y)),
    ensures
        final(film).wf(),
        final(film).w == old(film).w,
        final(film).h == old(film).h,
        forall|o: int| 0 <= o < old(film).area() && in_subset(o, k as int, n as int) ==> call_ensures(
            *shade,
            ((o % old(film).w as int) as u32, (o / old(film).w as int) as u32),
            #[trigger] final(film).pixels()[o],
        ),
        final(film).pixels().len() == old(film).pixels().len(),
        forall|o: int| 0 <= o < old(film).pixels().len() && !(o < old(film).area() && in_subset(o, k as int, n as int))
            ==> #[trigger] final(film).pixels()[o] == old(film).pixels()[o],
{
    let width = film.w() as usize;
    let height = film.h() as usize;
    let len = film.size();
    proof {
        assert(width * height <= len) by (nonlinear_arith)
            requires
                width == film.w,
                height == film.h,
                film.wf(),
                len == film.pixels().len(),
        ;
    }
    let area = width * height;
    let ghost p0 = film.pixels();
    let ghost w = width as int;
    let mut offset = k;
    proof {
        vstd::arithmetic::div_mod::lemma_small_mod(0nat, n as nat);
    }
    while offset < area
        invariant
            n >= 1,
            film.wf(),
            film.w == old(film).w,
            film.h == old(film).h,
            width == film.w,
            height == film.h,
            area == film.area(),
            len == film.pixels().len(),
            p0 == old(film).pixels(),
            p0.len() == len,
            w == width,
            offset >= k,
            offset < area ==> (offset - k) % (n as int) == 0,
            offset > area ==> offset == k,
            forall|x: u32, y: u32| call_requires(*shade, (x, y)),
            forall|o: int| 0 <= o < area && in_subset(o, k as int, n as int) && o < offset ==> call_ensures(
                *shade,
                ((o % w) as u32, (o / w) as u32),
                #[trigger] film.pixels()[o],
            ),
            forall|o: int| 0 <= o < len && !(in_subset(o, k as int, n as int) && o < offset) ==> #[trigger] film.pixels()[o]
                == p0[o],
        decreases area - offset,
    {
        let (x, y) = film.position(offset);
        let color = shade(x, y);
        let ghost before = film.pixels();
        film.set(x, y, color);
        proof {
            assert(pixel_offset(width as int, x as int, y as int) == offset);
            assert forall|o: int| 0 <= o < area && in_subset(o, k as int, n as int) && o < offset + n implies call_ensures(
                *shade,
                ((o % w) as u32, (o / w) as u32),
                #[trigger] film.pixels()[o],
            ) by {
                if o != offset {
                    if o > offset {
                        lemma_subset_gap(o, offset as int, k as int, n as int);
                    }
                    assert(film.pixels()[o] == before[o]);
                }
            }
        }
        if area - offset <= n {
            offset = area;
        } else {
            offset = offset + n;
            proof {
                assert((offset - k) % (n as int) == 0) by {
                    vstd::arithmetic::div_mod::lemma_mod_add_multiples_vanish((offset - n - k) as int, n as int);
                }
            }
        }
    }
}

/// Copies render subset `k` of `n` from `part`, a film of the same size that
/// a worker rendered that subset onto, into `film`; the other pixels of
/// `film` are left as they are.
pub fn merge_subset(k: usize, n: usize, film: &mut Film, part: &Film)
    requires
        n >= 1,
        old(film).wf(),
        part.wf(),
        part.w == old(film).w,
        part.h == old(film).h,
    ensures
        final(film).wf(),
        final(film).w == old(film).w,
        final(film).h == old(film).h,
        final(film).pixels().len() == old(film).pixels().len(),
        forall|o: int| 0 <= o < old(film).area() && in_subset(o, k as int, n as int) ==> #[trigger] final(film).pixels()[o]
            == part.pixels()[o],
        forall|o: int| 0 <= o < old(film).pixels().len() && !(o < old(film).area() && in_subset(o, k as int, n as int))
            ==> #[trigger] final(film).pixels()[o] == old(film).pixels()[o],
{
    let width = film.w() as usize;
    let height = film.h() as usize;
    let len = film.size();
    let plen = part.size();
    proof {
        assert(width * height <= len) by (nonlinear_arith)
            requires
                width == film.w,
                height == film.h,
                film.wf(),
                len == film.pixels().len(),
        ;
    }
    let area = width * height;
    let ghost p0 = film.pixels();
    let mut offset = k;
    proof {
        vstd::arithmetic::div_mod::lemma_small_mod(0nat, n as nat);
    }
    while offset < area
        invariant
            n >= 1,
            film.wf(),
            film.w == old(film).w,
            film.h == old(film).h,
            part.wf(),
            part.w == film.w,
            part.h == film.h,
            width == film.w,
            height == film.h,
            area == film.area(),
            area <= plen,
            plen == part.pixels().len(),
            len == film.pixels().len(),
            p0 == old(film).pixels(),
            p0.len() == len,
            offset >= k,
            offset < area ==> (offset - k) % (n as int) == 0,
            offset > area ==> offset == k,
            forall|o: int| 0 <= o < area && in_subset(o, k as int, n as int) && o < offset ==> #[trigger] film.pixels()[o]
                == part.pixels()[o],
            forall|o: int| 0 <= o < len && !(in_subset(o, k as int, n as int) && o < offset) ==> #[trigger] film.pixels()[o]
                == p0[o],
        decreases area - offset,
    {
        let pixel = part.pixel(offset);
        let (x, y) = film.position(offset);
        let ghost before = film.pixels();
        film.set(x, y, pixel);
        proof {
            assert(pixel_offset(width as int, x as int, y as int) == offset);
            assert forall|o: int| 0 <= o < area && in_subset(o, k as int, n as int) && o < offset + n implies #[trigger] film.pixels()[o]
                == part.pixels()[o] by {
                if o != offset {
                    if o > offset {
                        lemma_subset_gap(o, offset as int, k as int, n as int);
                    }
                    assert(film.pixels()[o] == before[o]);
                }
            }
        }
        if area - offset <= n {
            offset = area;
        } else {
            offset = offset + n;
            proof {
                assert((offset - k) % (n as int) == 0) by {
                    vstd::arithmetic::div_mod::lemma_mod_add_multiples_vanish((offset - n - k) as int, n as int);
                }
            }
        }
    }
}

/// Two members of a render subset are at least `n` pixels apart.
proof fn lemma_subset_gap(o: int, off: int, k: int, n: int)
    requires
        n >= 1,
        off < o,
        in_subset(o, k, n),
        in_subset(off, k, n),
    ensures
        o >= off + n,
{
    vstd::arithmetic::div_mod::lemma_fundamental_div_mod(o - k, n);
    vstd::arithmetic::div_mod::lemma_fundamental_div_mod(off - k, n);
    let a = (o - k) / n;
    let b = (off - k) / n;
    assert(o - off == n * (a - b)) by (nonlinear_arith)
        requires
            o - k == n * a + 0,
            off - k == n * b + 0,
    ;
    assert(n * (a - b) >= n) by (nonlinear_arith)
        requires
            n >= 1,
            0 < n * (a - b),
    ;
}

/// The render subsets `0 .. n` of `n` split the pixels of an image among
/// themselves: each pixel offset belongs to exactly one of them, subset
/// `o % n`.
pub proof fn subsets_partition_pixels(o: int, n: int, j: int)
    requires
        n >= 1,
        0 <= o,
        0 <= j < n,
    ensures
        in_subset(o, o % n, n),
        in_subset(o, j, n) <==> j == o % n,
{
    vstd::arithmetic::div_mod::lemma_fundamental_div_mod(o, n);
    assert(0 <= o % n < n) by {
        vstd::arithmetic::div_mod::lemma_mod_bound(o, n);
    }
    assert((o - o % n) % n == 0) by {
        vstd::arithmetic::div_mod::lemma_mod_multiples_basic(o / n, n);
        assert(o - o % n == (o / n) * n) by (nonlinear_arith)
            requires
                o == n * (o / n) + o % n,
        ;
    }
    if in_subset(o, j, n) && j != o % n {
        vstd::arithmetic::div_mod::lemma_fundamental_div_mod(o - j, n);
        let a = (o - j) / n;
        let q = o / n;
        assert(j - o % n == n * (q - a)) by (nonlinear_arith)
            requires
                o - j == n * a + 0,
                o == n * q + o % n,
        ;
        assert(false) by (nonlinear_arith)
            requires
                n >= 1,
                0 <= j < n,
                0 <= o % n < n,
                j != o % n,
                j - o % n == n * (q - a),
        ;
    }
}

/// Merges into `film` the films `parts` that `parts.len()` workers rendered,
/// worker `k` its render subset `k`: each pixel of the image comes from the
/// film of the worker whose subset it belongs to, that of its offset modulo
/// the number of workers; the pixels past the image are left as they are.
pub fn merge_all(film: &mut Film, parts: &Vec<Film>)
    requires
        parts@.len() >= 1,
        old(film).wf(),
        forall|k: int| 0 <= k < parts@.len() ==> (#[trigger] parts@[k]).wf() && parts@[k].w == old(film).w && parts@[k].h
            == old(film).h,
    ensures
        final(film).wf(),
        final(film).w == old(film).w,
        final(film).h == old(film).h,
        final(film).pixels().len() == old(film).pixels().len(),
        forall|o: int| 0 <= o < old(film).area() ==> #[trigger] final(film).pixels()[o] == parts@[o % (parts@.len() as int)].pixels()[o],
        forall|o: int| old(film).area() <= o < old(film).pixels().len() ==> #[trigger] final(film).pixels()[o] == old(film).pixels()[o],
{
    let n = parts.len();
    let ghost p0 = film.pixels();
    let ghost area = film.area();
    let mut k: usize = 0;
    while k < n
        invariant
            n == parts@.len(),
            n >= 1,
            k <= n,
            film.wf(),
            film.w == old(film).w,
            film.h == old(film).h,
            area == old(film).area(),
            area == film.area(),
            p0 == old(film).pixels(),
            film.pixels().len() == p0.len(),
            forall|j: int| 0 <= j < parts@.len() ==> (#[trigger] parts@[j]).wf() && parts@[j].w == old(film).w && parts@[j].h
                == old(film).h,
            forall|o: int| 0 <= o < area && o % (n as int) < k ==> #[trigger] film.pixels()[o] == parts@[o % (n as int)].pixels()[o],
            forall|o: int| 0 <= o < p0.len() && !(o < area && o % (n as int) < k) ==> #[trigger] film.pixels()[o] == p0[o],
        decreases n - k,
    {
        let ghost before = film.pixels();
        merge_subset(k, n, film, &parts[k]);
        proof {
            assert forall|o: int| 0 <= o < area && o % (n as int) < k + 1 implies #[trigger] film.pixels()[o] == parts@[o % (n as int)].pixels()[o] by {
                subsets_partition_pixels(o, n as int, k as int);
                if o % (n as int) < k {
                    assert(film.pixels()[o] == before[o]);
                }
            }
            assert forall|o: int| 0 <= o < p0.len() && !(o < area && o % (n as int) < k + 1) implies #[trigger] film.pixels()[o] == p0[o] by {
                if o < area {
                    subsets_partition_pixels(o, n as int, k as int);
                }
                assert(film.pixels()[o] == before[o]);
            }
        }
        k = k + 1;
    }
}

/// Rendering with any number of workers makes the image that one worker
/// makes: where worker `k` of `n` captured its subset `k` of the image of
/// width `w` and `area` pixels onto its film `parts[k]` (as
/// `capture_subset` does) and the films were merged (as `merge_all` does),
/// every pixel of the image is a colour that `shade` gives for its position;
/// so is every pixel of `single`, which one worker captured alone; and where
/// `shade` gives one colour per position, the two images are the same.
pub proof fn workers_make_the_single_worker_image<S: Fn(u32, u32) -> Pixel>(
    shade: S,
    w: int,
    area: int,
    parts: Seq<Seq<Pixel>>,
    merged: Seq<Pixel>,
    single: Seq<Pixel>,
)
    requires
        w >= 1,
        parts.len() >= 1,
        forall|k: int, o: int|
            0 <= k < parts.len() && 0 <= o < area && in_subset(o, k, parts.len() as int) ==> call_ensures(
                shade,
                ((o % w) as u32, (o / w) as u32),
                #[trigger] parts[k][o],
            ),
        forall|o: int| 0 <= o < area ==> #[trigger] merged[o] == parts[o % (parts.len() as int)][o],
        forall|o: int| 0 <= o < area && in_subset(o, 0, 1) ==> call_ensures(shade, ((o % w) as u32, (o / w) as u32), #[trigger] single[o]),
    ensures
        forall|o: int| 0 <= o < area ==> call_ensures(shade, ((o % w) as u32, (o / w) as u32), #[trigger] merged[o]),
        forall|o: int| 0 <= o < area ==> call_ensures(shade, ((o % w) as u32, (o / w) as u32), #[trigger] single[o]),
        (forall|x: u32, y: u32, p: Pixel, q: Pixel| call_ensures(shade, (x, y), p) && call_ensures(shade, (x, y), q) ==> p == q)
            ==> forall|o: int| 0 <= o < area ==> #[trigger] merged[o] == single[o],
{
    let n = parts.len() as int;
    assert forall|o: int| 0 <= o < area implies call_ensures(shade, ((o % w) as u32, (o / w) as u32), #[trigger] merged[o]) by {
        subsets_partition_pixels(o, n, 0);
        assert(call_ensures(shade, ((o % w) as u32, (o / w) as u32), parts[o % n][o]));
    }
    assert forall|o: int| 0 <= o < area implies call_ensures(shade, ((o % w) as u32, (o / w) as u32), #[trigger] single[o]) by {
        subsets_partition_pixels(o, 1, 0);
    }
}

} // verus!
