use vstd::prelude::*;

verus! {

/// The byte at index `j` of the pixel data generated for `tnum` textures of
/// `w` by `h` pixels. Each pixel's four channels are written at an offset of
/// one byte per pixel rather than four, so every write overlaps the next,
/// and only the tail of the last pixel survives: after `g = tnum * w * h`
/// pixels, bytes `g` and `g + 2` are 255 and all others 0.
pub open spec fn sheet_byte(tnum: nat, w: nat, h: nat, j: int) -> u8 {
    let g = tnum * w * h;
    if g > 0 && (j == g || j == g + 2) {
        255
    } else {
        0
    }
}

/// The bytes after the first `g` pixel writes, on a buffer of `size` bytes.
pub open spec fn painted(size: nat, g: nat) -> Seq<u8> {
    Seq::new(size, |j: int| if g > 0 && (j == g || j == g + 2) { 255u8 } else { 0u8 })
}

/// A buffer of `size` zero bytes after the first `k` pixel writes, pixel
/// `p` writing the channels `0, 255, 0, 255` to bytes `p` to `p + 3`.
pub open spec fn pixel_writes(size: nat, k: nat) -> Seq<u8>
    decreases k,
{
    if k == 0 {
        Seq::new(size, |j: int| 0u8)
    } else {
        let b = k - 1;
        pixel_writes(size, (k - 1) as nat).update(b, 0u8).update(b + 1, 255u8).update(b + 2, 0u8).update(b + 3, 255u8)
    }
}

proof fn lemma_pixel_writes_prefix(size: nat, k: nat)
    requires
        k + 3 <= size,
    ensures
        pixel_writes(size, k).len() == size,
        forall|j: int| 0 <= j < size ==> #[trigger] pixel_writes(size, k)[j] == (if k > 0 && (j == k || j == k + 2) { 255u8 } else { 0u8 }),
    decreases k,
{
    if k > 0 {
        lemma_pixel_writes_prefix(size, (k - 1) as nat);
    }
}

/// The generated sheet is what writing every pixel in turn, each at an
/// offset of one byte per pixel, leaves in a zeroed buffer of
/// `tnum * w * h * 4` bytes.
pub proof fn lemma_sheet_is_pixel_writes(tnum: nat, w: nat, h: nat)
    ensures
        forall|j: int| 0 <= j < tnum * w * h * 4 ==> #[trigger] sheet_byte(tnum, w, h, j)
            == pixel_writes(tnum * w * h * 4, tnum * w * h)[j],
{
    let g = tnum * w * h;
    if g > 0 {
        lemma_pixel_writes_prefix(g * 4, g);
    }
}

/// The RGBA pixel data of a sprite sheet holding `tnum` textures of `w_d`
/// by `h_d` pixels, stacked vertically: `tnum * w_d * h_d * 4` bytes, every
/// pixel painted opaque green at byte offset `base + pixel`.
pub fn sheet_data(tnum: usize, w_d: usize, h_d: usize) -> (data: Vec<u8>)
    requires
        tnum * w_d <= usize::MAX,
        tnum * w_d * h_d <= usize::MAX,
        tnum * w_d * h_d * 4 <= usize::MAX,
    ensures
        data@.len() == tnum * w_d * h_d * 4,
        forall|j: int| 0 <= j < data@.len() ==> #[trigger] data@[j] == sheet_byte(tnum as nat, w_d as nat, h_d as nat, j),
{
    let size: usize = tnum * w_d * h_d * 4;
    let ghost wh: nat = (w_d * h_d) as nat;
    proof {
        assert(tnum * w_d * h_d == tnum * (w_d * h_d)) by (nonlinear_arith);
    }
    let mut data: Vec<u8> = Vec::new();
    let mut z: usize = 0;
    while z < size
        invariant
            z <= size,
            data@ == Seq::new(z as nat, |j: int| 0u8),
        decreases size - z,
    {
        data.push(0);
        z = z + 1;
        proof {
            assert(data@ =~= Seq::new(z as nat, |j: int| 0u8));
        }
    }
    proof {
        assert(data@ =~= painted(size as nat, 0));
    }
    let mut i: usize = 0;
    while i < tnum
        invariant
            i <= tnum,
            wh == w_d * h_d,
            size == tnum * wh * 4,
            data@ == painted(size as nat, (i * wh) as nat),
        decreases tnum - i,
    {
        proof {
            assert(i * wh + wh <= tnum * wh) by (nonlinear_arith)
                requires i < tnum;
        }
        proof {
            assert(w_d * h_d <= tnum * w_d * h_d) by (nonlinear_arith)
                requires i < tnum;
            assert(i * (w_d * h_d) <= tnum * w_d * h_d) by (nonlinear_arith)
                requires i < tnum;
        }
        let base_num: usize = i * (w_d * h_d);
        let mut h_p: usize = 0;
        while h_p < h_d
            invariant
                i < tnum,
                h_p <= h_d,
                wh == w_d * h_d,
                size == tnum * wh * 4,
                base_num == i * wh,
                i * wh + wh <= tnum * wh,
                data@ == painted(size as nat, (base_num + h_p * w_d) as nat),
            decreases h_d - h_p,
        {
            proof {
                assert(h_p * w_d + w_d <= wh) by (nonlinear_arith)
                    requires h_p < h_d, wh == w_d * h_d;
            }
            let mut w_p: usize = 0;
            while w_p < w_d
                invariant
                    i < tnum,
                    h_p < h_d,
                    w_p <= w_d,
                    wh == w_d * h_d,
                    size == tnum * wh * 4,
                    base_num == i * wh,
                    i * wh + wh <= tnum * wh,
                    h_p * w_d + w_d <= wh,
                    data@ == painted(size as nat, (base_num + h_p * w_d + w_p) as nat),
                decreases w_d - w_p,
            {
                let g: usize = base_num + (h_p * w_d + w_p);
                proof {
                    assert(g + 4 <= size) by (nonlinear_arith)
                        requires
                            g < tnum * wh,
                            size == tnum * wh * 4,
                    ;
                }
                data.set(g + 0, 0);
                data.set(g + 1, 255);
                data.set(g + 2, 0);
                data.set(g + 3, 255);
                proof {
                    assert(data@ =~= painted(size as nat, (g + 1) as nat));
                }
                w_p = w_p + 1;
            }
            proof {
                assert(base_num + h_p * w_d + w_d == base_num + (h_p + 1) * w_d) by (nonlinear_arith);
            }
            h_p = h_p + 1;
        }
        proof {
            assert(h_d * w_d == wh) by (nonlinear_arith)
                requires wh == w_d * h_d;
            assert(base_num + h_d * w_d == (i + 1) * wh) by (nonlinear_arith)
                requires base_num == i * wh, h_d * w_d == wh;
        }
        i = i + 1;
    }
    proof {
        assert(tnum * w_d * h_d == tnum * wh) by (nonlinear_arith)
            requires wh == w_d * h_d;
    }
    data
}

} // verus!
