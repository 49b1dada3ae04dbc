use vstd::prelude::*;

use crate::error::DecodeError;

verus! {

/// 2 to the power `w` (1 for non-positive `w`).
pub open spec fn p2(w: int) -> int
    decreases w,
{
    if w <= 0 {
        1
    } else {
        2 * p2(w - 1)
    }
}

pub proof fn lemma_p2_positive(w: int)
    ensures
        p2(w) >= 1,
    decreases w,
{
    if w > 0 {
        lemma_p2_positive(w - 1);
    }
}

/// Unfolds `p2` far enough to pin the 12-bit cap.
pub proof fn lemma_p2_12()
    ensures
        p2(12) == 4096,
{
    reveal_with_fuel(p2, 13);
}

pub proof fn lemma_p2_increases(a: int, b: int)
    requires
        a <= b,
    ensures
        p2(a) <= p2(b),
    decreases b - a,
{
    if a < b {
        lemma_p2_increases(a, b - 1);
        lemma_p2_positive(b - 1);
    }
}

/// Bit `i` of the LZW bit stream: bit `i % 8` of byte `i / 8`. Codes
/// are packed least-significant-bit first, as the format requires.
pub open spec fn bit_at(s: Seq<u8>, i: int) -> int {
    ((s[i / 8] >> ((i % 8) as u8)) & 1) as int
}

/// The `width`-bit code whose least significant bit is stream bit `i`.
pub open spec fn code_at(s: Seq<u8>, i: int, width: int) -> int
    decreases width,
{
    if width <= 0 {
        0
    } else {
        bit_at(s, i) + 2 * code_at(s, i + 1, width - 1)
    }
}

proof fn lemma_bit_at_01(s: Seq<u8>, i: int)
    ensures
        bit_at(s, i) == 0 || bit_at(s, i) == 1,
{
    let b = s[i / 8];
    let sh = (i % 8) as u8;
    assert(((b >> sh) & 1) == 0 || ((b >> sh) & 1) == 1) by (bit_vector);
}

/// Reading one more bit extends the code at its most significant end.
proof fn lemma_code_at_snoc(s: Seq<u8>, i: int, w: int)
    requires
        w >= 0,
    ensures
        code_at(s, i, w + 1) == code_at(s, i, w) + bit_at(s, i + w) * p2(w),
    decreases w,
{
    let b = bit_at(s, i + w);
    if w == 0 {
        assert(code_at(s, i, 1) == bit_at(s, i) + 2 * code_at(s, i + 1, 0));
        assert(b * p2(0) == b) by (nonlinear_arith)
            requires
                p2(0) == 1,
        ;
    } else {
        lemma_code_at_snoc(s, i + 1, w - 1);
        let c = code_at(s, i + 1, w - 1);
        let pw = p2(w - 1);
        assert(code_at(s, i, w + 1) == bit_at(s, i) + 2 * code_at(s, i + 1, w));
        assert(code_at(s, i, w) == bit_at(s, i) + 2 * c);
        assert(p2(w) == 2 * pw);
        assert(2 * (c + b * pw) == 2 * c + b * (2 * pw)) by (nonlinear_arith);
    }
}

/// A `w`-bit code lies below `p2(w)`.
proof fn lemma_code_at_bound(s: Seq<u8>, i: int, w: int)
    requires
        w >= 0,
    ensures
        0 <= code_at(s, i, w) < p2(w),
    decreases w,
{
    if w == 0 {
    } else {
        lemma_code_at_bound(s, i + 1, w - 1);
        lemma_bit_at_01(s, i);
    }
}

/// Executable power of two, kept within `u16` range.
pub fn pow2_u16(w: u16) -> (r: u16)
    requires
        w <= 12,
    ensures
        r == p2(w as int),
{
    let mut r: u16 = 1;
    let mut k: u16 = 0;
    while k < w
        invariant
            k <= w,
            w <= 12,
            r == p2(k as int),
        decreases w - k,
    {
        proof {
            lemma_p2_increases(k as int + 1, 12);
            lemma_p2_12();
        }
        r = r * 2;
        k = k + 1;
    }
    r
}

/// Reads the `width`-bit code whose least significant bit is stream
/// bit `bitpos` of `data`.
fn read_code(data: &Vec<u8>, bitpos: usize, width: u16) -> (r: u16)
    requires
        1 <= width <= 12,
        bitpos + width <= 8 * data@.len(),
        8 * data@.len() <= usize::MAX as int,
    ensures
        r == code_at(data@, bitpos as int, width as int),
{
    let mut acc: u16 = 0;
    let mut mult: u16 = 1;
    let mut k: u16 = 0;
    while k < width
        invariant
            k <= width,
            1 <= width <= 12,
            bitpos + width <= 8 * data@.len(),
            8 * data@.len() <= usize::MAX as int,
            mult == p2(k as int),
            acc == code_at(data@, bitpos as int, k as int),
            acc < mult,
        decreases width - k,
    {
        proof {
            lemma_p2_increases(k as int + 1, 12);
            lemma_p2_12();
        }
        let i = bitpos + k as usize;
        let byte = data[i / 8];
        let bit: u16 = ((byte >> ((i % 8) as u8)) & 1) as u16;
        proof {
            assert(i / 8 < data@.len());
            lemma_bit_at_01(data@, i as int);
            assert(bit == bit_at(data@, i as int));
            lemma_code_at_snoc(data@, bitpos as int, k as int);
            if bit_at(data@, i as int) == 1 {
                assert(bit as int * p2(k as int) == p2(k as int)) by (nonlinear_arith)
                    requires
                        bit == 1,
                ;
            } else {
                assert(bit as int * p2(k as int) == 0) by (nonlinear_arith)
                    requires
                        bit == 0,
                ;
            }
        }
        acc = acc + bit * mult;
        mult = mult * 2;
        k = k + 1;
    }
    acc
}

/// The clear code: one past the last root entry.
pub open spec fn clear_code(min: int) -> int {
    p2(min)
}

/// The end-of-information code.
pub open spec fn end_code(min: int) -> int {
    p2(min) + 1
}

/// Ghost mirror of the decoder state: the dictionary as sequences of
/// palette indices, the current code width in bits, and the previously
/// decoded code.
pub ghost struct LzwState {
    pub dict: Seq<Seq<u8>>,
    pub width: int,
    pub prev: Option<int>,
}

/// The seeded dictionary: one single-index entry for each root code
/// `0 .. 2^min`, then one placeholder each for the clear code and the
/// end code, so the seeded size is `2^min + 2` and fresh entries are
/// assigned at the dictionary's length.
pub open spec fn seed_dict(min: int) -> Seq<Seq<u8>> {
    Seq::new(
        (p2(min) + 2) as nat,
        |c: int|
            if c < p2(min) {
                seq![c as u8]
            } else {
                Seq::<u8>::empty()
            },
    )
}

/// The decoder state right after initialization or a clear code.
pub open spec fn init_state(min: int) -> LzwState {
    LzwState { dict: seed_dict(min), width: min + 1, prev: None }
}

/// The next code width: it grows by one exactly when the dictionary
/// has filled the current width's code space, and never past 12 bits.
pub open spec fn grown_width(w: int, dict_len: int) -> int {
    if dict_len == p2(w) && w < 12 {
        w + 1
    } else {
        w
    }
}

/// What LZW decompression of `data` denotes, starting at stream bit
/// `bitpos` in state `st` with `acc` already emitted.
///
/// One code is consumed per step. A clear code reseeds the dictionary
/// and resets the width; the end code, or running out of bits, ends
/// the stream, which is a `PixelCountMismatch` error whenever fewer
/// than `expected` indices came out (excess output is truncated, so a
/// complete output returns before any further code is read). A code
/// one past the dictionary means the entry being defined (the previous
/// sequence extended by its own first index); anything further is
/// `InvalidLzwCode`. New entries stop being added once the dictionary
/// holds 4096 entries, until a clear code resets it.
pub open spec fn spec_lzw(
    data: Seq<u8>,
    min: int,
    bitpos: int,
    st: LzwState,
    acc: Seq<u8>,
    expected: int,
) -> Result<Seq<u8>, DecodeError>
    decreases 8 * data.len() - bitpos,
{
    if acc.len() >= expected {
        Ok(acc.take(expected))
    } else if !(0 <= bitpos && st.width >= 1 && bitpos + st.width <= 8 * data.len()) {
        Err(DecodeError::PixelCountMismatch)
    } else {
        let code = code_at(data, bitpos, st.width);
        let next = bitpos + st.width;
        if code == clear_code(min) {
            spec_lzw(data, min, next, init_state(min), acc, expected)
        } else if code == end_code(min) {
            Err(DecodeError::PixelCountMismatch)
        } else if code < st.dict.len() {
            let entry = st.dict[code];
            let dict2 = if st.prev is Some && st.dict.len() < 4096 {
                st.dict.push(st.dict[st.prev.unwrap()] + seq![entry[0]])
            } else {
                st.dict
            };
            let st2 = LzwState {
                dict: dict2,
                width: grown_width(st.width, dict2.len() as int),
                prev: Some(code),
            };
            spec_lzw(data, min, next, st2, acc + entry, expected)
        } else if code == st.dict.len() && st.prev is Some {
            let pe = st.dict[st.prev.unwrap()];
            let entry = pe + seq![pe[0]];
            let st2 = LzwState {
                dict: st.dict.push(entry),
                width: grown_width(st.width, st.dict.len() as int + 1),
                prev: Some(code),
            };
            spec_lzw(data, min, next, st2, acc + entry, expected)
        } else {
            Err(DecodeError::InvalidLzwCode)
        }
    }
}

/// Whatever path the stream takes, a successful decode emits exactly
/// `expected` indices.
pub proof fn lemma_lzw_output_len(
    data: Seq<u8>,
    min: int,
    bitpos: int,
    st: LzwState,
    acc: Seq<u8>,
    expected: int,
)
    requires
        expected >= 0,
    ensures
        spec_lzw(data, min, bitpos, st, acc, expected) matches Ok(v) ==> v.len() == expected,
    decreases 8 * data.len() - bitpos,
{
    if acc.len() >= expected {
    } else if !(0 <= bitpos && st.width >= 1 && bitpos + st.width <= 8 * data.len()) {
    } else {
        let code = code_at(data, bitpos, st.width);
        let next = bitpos + st.width;
        if code == clear_code(min) {
            lemma_lzw_output_len(data, min, next, init_state(min), acc, expected);
        } else if code == end_code(min) {
        } else if code < st.dict.len() {
            let entry = st.dict[code];
            let dict2 = if st.prev is Some && st.dict.len() < 4096 {
                st.dict.push(st.dict[st.prev.unwrap()] + seq![entry[0]])
            } else {
                st.dict
            };
            let st2 = LzwState {
                dict: dict2,
                width: grown_width(st.width, dict2.len() as int),
                prev: Some(code),
            };
            lemma_lzw_output_len(data, min, next, st2, acc + entry, expected);
        } else if code == st.dict.len() && st.prev is Some {
            let pe = st.dict[st.prev.unwrap()];
            let entry = pe + seq![pe[0]];
            let st2 = LzwState {
                dict: st.dict.push(entry),
                width: grown_width(st.width, st.dict.len() as int + 1),
                prev: Some(code),
            };
            lemma_lzw_output_len(data, min, next, st2, acc + entry, expected);
        } else {
        }
    }
}

/// A clear code, wherever it stands in the stream, continues the run
/// from exactly the seeded dictionary (`2^min + 2` entries) with the
/// code width back at `min + 1`.
pub proof fn lemma_clear_code_resets(
    data: Seq<u8>,
    min: int,
    bitpos: int,
    st: LzwState,
    acc: Seq<u8>,
    expected: int,
)
    requires
        acc.len() < expected,
        0 <= bitpos,
        st.width >= 1,
        bitpos + st.width <= 8 * data.len(),
        code_at(data, bitpos, st.width) == clear_code(min),
    ensures
        spec_lzw(data, min, bitpos, st, acc, expected) == spec_lzw(
            data,
            min,
            bitpos + st.width,
            init_state(min),
            acc,
            expected,
        ),
        init_state(min).dict.len() == p2(min) + 2,
        init_state(min).width == min + 1,
        init_state(min).prev is None,
{
    lemma_p2_positive(min);
}

/// View of the executable dictionary as sequences of indices.
pub open spec fn dict_view(d: Seq<Vec<u8>>) -> Seq<Seq<u8>> {
    d.map_values(|v: Vec<u8>| v@)
}

/// View of the executable previous-code register.
pub open spec fn prev_view(p: Option<u16>) -> Option<int> {
    match p {
        Some(x) => Some(x as int),
        None => None,
    }
}

/// Decodes one image's LZW stream to palette indices.
///
/// The result is exactly what `spec_lzw` denotes from the seeded
/// dictionary: `expected` indices on success (excess output is
/// truncated, a shortfall is `PixelCountMismatch`), `InvalidLzwCode`
/// where a code runs past the dictionary. The dictionary arena is
/// reused across clear-code resets by truncation.
#[verifier::rlimit(80)]
pub fn lzw_decode(data: &Vec<u8>, min_code_size: u8, expected: usize) -> (r: Result<
    Vec<u8>,
    DecodeError,
>)
    requires
        2 <= min_code_size <= 8,
        8 * data@.len() <= usize::MAX as int,
    ensures
        ({
            let s = spec_lzw(
                data@,
                min_code_size as int,
                0,
                init_state(min_code_size as int),
                Seq::<u8>::empty(),
                expected as int,
            );
            match r {
                Ok(v) => s is Ok && v@ == s.unwrap(),
                Err(e) => s == Err::<Seq<u8>, DecodeError>(e),
            }
        }),
{
    let ghost d = data@;
    let ghost min = min_code_size as int;
    let ghost exp = expected as int;
    let clear: u16 = pow2_u16(min_code_size as u16);
    let endc: u16 = clear + 1;
    proof {
        lemma_p2_increases(min, 8);
        reveal_with_fuel(p2, 13);
    }
    let mut dict: Vec<Vec<u8>> = Vec::new();
    let mut c: u16 = 0;
    while c < clear
        invariant
            c <= clear,
            2 <= min_code_size <= 8,
            min == min_code_size as int,
            clear == p2(min),
            clear <= 256,
            dict@.len() == c,
            forall|i: int| 0 <= i < c ==> #[trigger] dict@[i]@ == seq![i as u8],
        decreases clear - c,
    {
        let mut e: Vec<u8> = Vec::new();
        e.push(c as u8);
        let ghost ev = e@;
        let ghost dv0 = dict@;
        dict.push(e);
        proof {
            assert(ev =~= seq![c as int as u8]);
            assert forall|i: int| 0 <= i < c + 1 implies #[trigger] dict@[i]@ == seq![
                i as u8,
            ] by {
                if i < c {
                    assert(dict@[i] == dv0[i]);
                }
            }
        }
        c = c + 1;
    }
    let ghost dv_seeded = dict@;
    dict.push(Vec::new());
    dict.push(Vec::new());
    let mut width: u16 = min_code_size as u16 + 1;
    let mut width_cap: u16 = clear * 2;
    let mut prev: Option<u16> = None;
    let mut out: Vec<u8> = Vec::new();
    let mut bitpos: usize = 0;
    let ghost r0 = spec_lzw(d, min, 0, init_state(min), Seq::<u8>::empty(), exp);
    proof {
        lemma_p2_positive(min);
        lemma_p2_increases(min, 8);
        reveal_with_fuel(p2, 13);
        assert(dict@.len() == p2(min) + 2);
        assert forall|i: int| 0 <= i < p2(min) + 2 implies dict_view(dict@)[i] == seed_dict(
            min,
        )[i] by {
            if i < p2(min) {
                assert(dict@[i] == dv_seeded[i]);
                assert(dict@[i]@ == seq![i as u8]);
            } else {
                assert(dict@[i]@.len() == 0);
                assert(dict@[i]@ =~= Seq::<u8>::empty());
            }
        }
        assert(dict_view(dict@) =~= seed_dict(min));
    }
    loop
        invariant
            d == data@,
            2 <= min_code_size <= 8,
            min == min_code_size as int,
            exp == expected as int,
            8 * d.len() <= usize::MAX as int,
            clear == p2(min),
            endc == p2(min) + 1,
            min + 1 <= width <= 12,
            width_cap == p2(width as int),
            p2(min) + 2 <= dict@.len() <= p2(width as int),
            dict@.len() == p2(width as int) ==> width == 12,
            forall|i: int| 0 <= i < p2(min) + 2 ==> dict_view(dict@)[i] == seed_dict(min)[i],
            forall|i: int|
                0 <= i < dict@.len() && i != clear_code(min) && i != end_code(min)
                    ==> #[trigger] dict_view(dict@)[i].len() >= 1,
            prev matches Some(p) ==> p < dict@.len() && p != clear && p != endc,
            bitpos <= 8 * d.len(),
            r0 == spec_lzw(d, min, 0, init_state(min), Seq::<u8>::empty(), exp),
            spec_lzw(
                d,
                min,
                bitpos as int,
                LzwState {
                    dict: dict_view(dict@),
                    width: width as int,
                    prev: prev_view(prev),
                },
                out@,
                exp,
            ) == r0,
        decreases 8 * d.len() - bitpos,
    {
        let ghost st0 = LzwState {
            dict: dict_view(dict@),
            width: width as int,
            prev: prev_view(prev),
        };
        let ghost bp0 = bitpos as int;
        let ghost out0 = out@;
        if out.len() >= expected {
            out.truncate(expected);
            proof {
                assert(out@ =~= out0.take(exp));
            }
            return Ok(out);
        }
        if 8 * data.len() - bitpos < width as usize {
            return Err(DecodeError::PixelCountMismatch);
        }
        let code = read_code(data, bitpos, width);
        proof {
            lemma_code_at_bound(d, bp0, width as int);
            lemma_p2_12();
            lemma_p2_increases(width as int, 12);
        }
        bitpos = bitpos + width as usize;
        if code == clear {
            let ghost dvb = dict@;
            dict.truncate(clear as usize + 2);
            width = min_code_size as u16 + 1;
            width_cap = clear * 2;
            prev = None;
            proof {
                reveal_with_fuel(p2, 13);
                lemma_p2_increases(min, 8);
                lemma_p2_positive(min);
                assert(dict@.len() == p2(min) + 2);
                assert forall|i: int| 0 <= i < p2(min) + 2 implies dict_view(dict@)[i]
                    == seed_dict(min)[i] by {
                    assert(dict@[i] == dvb[i]);
                    assert(dict_view(dvb)[i] == seed_dict(min)[i]);
                }
                assert(dict_view(dict@) =~= seed_dict(min));
                let stn = LzwState {
                    dict: dict_view(dict@),
                    width: width as int,
                    prev: prev_view(prev),
                };
                assert(stn == init_state(min));
                assert(spec_lzw(d, min, bp0, st0, out0, exp) == spec_lzw(
                    d,
                    min,
                    bitpos as int,
                    stn,
                    out@,
                    exp,
                ));
            }
        } else if code == endc {
            return Err(DecodeError::PixelCountMismatch);
        } else if (code as usize) < dict.len() {
            let entry_len = dict[code as usize].len();
            let ghost entry = dict_view(dict@)[code as int];
            let mut j: usize = 0;
            while j < entry_len
                invariant
                    j <= entry_len,
                    (code as usize) < dict@.len(),
                    entry == dict_view(dict@)[code as int],
                    entry_len == entry.len(),
                    out@ == out0 + entry.take(j as int),
                decreases entry_len - j,
            {
                let b = dict[code as usize][j];
                out.push(b);
                proof {
                    assert(out0 + entry.take(j as int + 1) =~= (out0 + entry.take(j as int)).push(
                        entry[j as int],
                    ));
                }
                j = j + 1;
            }
            proof {
                assert(entry.take(entry_len as int) =~= entry);
            }
            if prev.is_some() && dict.len() < 4096 {
                let p = prev.unwrap();
                let plen = dict[p as usize].len();
                let mut ne: Vec<u8> = Vec::new();
                let mut j2: usize = 0;
                while j2 < plen
                    invariant
                        j2 <= plen,
                        (p as usize) < dict@.len(),
                        plen == dict_view(dict@)[p as int].len(),
                        ne@ == dict_view(dict@)[p as int].take(j2 as int),
                    decreases plen - j2,
                {
                    let b = dict[p as usize][j2];
                    ne.push(b);
                    proof {
                        assert(dict_view(dict@)[p as int].take(j2 as int + 1) =~= dict_view(
                            dict@,
                        )[p as int].take(j2 as int).push(dict_view(dict@)[p as int][j2 as int]));
                    }
                    j2 = j2 + 1;
                }
                ne.push(dict[code as usize][0]);
                proof {
                    assert(dict_view(dict@)[p as int].take(plen as int) =~= dict_view(
                        dict@,
                    )[p as int]);
                    assert(ne@ =~= dict_view(dict@)[p as int] + seq![entry[0]]);
                }
                let ghost dv_before = dict_view(dict@);
                dict.push(ne);
                proof {
                    assert(dict_view(dict@) =~~= dv_before.push(
                        dv_before[prev_view(prev).unwrap()] + seq![entry[0]],
                    ));
                }
                if dict.len() == width_cap as usize && width < 12 {
                    width = width + 1;
                    width_cap = width_cap * 2;
                }
            }
            prev = Some(code);
            proof {
                let stn = LzwState {
                    dict: dict_view(dict@),
                    width: width as int,
                    prev: prev_view(prev),
                };
                assert(spec_lzw(d, min, bp0, st0, out0, exp) == spec_lzw(
                    d,
                    min,
                    bitpos as int,
                    stn,
                    out@,
                    exp,
                ));
            }
        } else if (code as usize) == dict.len() && prev.is_some() {
            let p = prev.unwrap();
            let plen = dict[p as usize].len();
            let mut ne: Vec<u8> = Vec::new();
            let mut j2: usize = 0;
            while j2 < plen
                invariant
                    j2 <= plen,
                    (p as usize) < dict@.len(),
                    plen == dict_view(dict@)[p as int].len(),
                    ne@ == dict_view(dict@)[p as int].take(j2 as int),
                decreases plen - j2,
            {
                let b = dict[p as usize][j2];
                ne.push(b);
                proof {
                    assert(dict_view(dict@)[p as int].take(j2 as int + 1) =~= dict_view(
                        dict@,
                    )[p as int].take(j2 as int).push(dict_view(dict@)[p as int][j2 as int]));
                }
                j2 = j2 + 1;
            }
            let first = dict[p as usize][0];
            ne.push(first);
            proof {
                assert(dict_view(dict@)[p as int].take(plen as int) =~= dict_view(dict@)[p as int]);
                assert(ne@ =~= dict_view(dict@)[p as int] + seq![dict_view(dict@)[p as int][0]]);
            }
            let ghost entry = ne@;
            let mut j: usize = 0;
            let ne_len = ne.len();
            while j < ne_len
                invariant
                    j <= ne_len,
                    ne_len == ne@.len(),
                    entry == ne@,
                    out@ == out0 + entry.take(j as int),
                decreases ne_len - j,
            {
                let b = ne[j];
                out.push(b);
                proof {
                    assert(out0 + entry.take(j as int + 1) =~= (out0 + entry.take(j as int)).push(
                        entry[j as int],
                    ));
                }
                j = j + 1;
            }
            proof {
                assert(entry.take(ne_len as int) =~= entry);
            }
            let ghost dv_before = dict_view(dict@);
            dict.push(ne);
            proof {
                assert(dict_view(dict@) =~~= dv_before.push(entry));
            }
            if dict.len() == width_cap as usize && width < 12 {
                width = width + 1;
                width_cap = width_cap * 2;
            }
            prev = Some(code);
            proof {
                let stn = LzwState {
                    dict: dict_view(dict@),
                    width: width as int,
                    prev: prev_view(prev),
                };
                assert(spec_lzw(d, min, bp0, st0, out0, exp) == spec_lzw(
                    d,
                    min,
                    bitpos as int,
                    stn,
                    out@,
                    exp,
                ));
            }
        } else {
            return Err(DecodeError::InvalidLzwCode);
        }
    }
}

/// The code width after assigning into a dictionary of `dict_len`
/// entries: one more bit exactly when the next assignable code index,
/// `dict_len` itself, would not fit in `w` bits any more, and never
/// beyond 12 bits.
pub proof fn lemma_width_growth(w: int, dict_len: int)
    requires
        1 <= w <= 12,
        dict_len <= p2(w),
    ensures
        grown_width(w, dict_len) == w + 1 <==> (dict_len == p2(w) && w < 12),
        grown_width(w, dict_len) <= 12,
        w <= grown_width(w, dict_len),
{
}

} // verus!
