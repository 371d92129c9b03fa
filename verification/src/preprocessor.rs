use vstd::prelude::*;

use crate::errors::FormatError;

verus! {

/// Largest input length the pipeline accepts, so that every occurrence count
/// fits a 32-bit slot even when each position yields four candidate windows.
pub const MAX_INPUT_LEN: usize = 0x0FFF_FFFF;

/// A bidirectional code/pattern table plus the observed frequency of each
/// pattern. Code `k` stands for `patterns[k - 1]`; codes start at 1.
pub struct Preprocessor {
    pub patterns: Vec<Vec<u8>>,
    pub code_frequencies: Vec<u32>,
    pub max_pattern_length: usize,
}

/// The patterns as mathematical sequences, indexed by code minus one.
pub open spec fn pats_view(patterns: Seq<Vec<u8>>) -> Seq<Seq<u8>> {
    patterns.map_values(|p: Vec<u8>| p@)
}

/// The code of the first table entry equal to `p`, if any.
pub open spec fn find_code(pats: Seq<Seq<u8>>, p: Seq<u8>) -> Option<int>
    decreases pats.len(),
{
    if pats.len() == 0 {
        Option::None
    } else if pats[0] == p {
        Option::Some(1)
    } else {
        match find_code(pats.skip(1), p) {
            Option::Some(c) => Option::Some(c + 1),
            Option::None => Option::None,
        }
    }
}

pub proof fn lemma_find_code_props(pats: Seq<Seq<u8>>, p: Seq<u8>)
    ensures
        match find_code(pats, p) {
            Option::Some(c) => 1 <= c <= pats.len() && pats[c - 1] == p,
            Option::None => forall|k: int| 0 <= k < pats.len() ==> pats[k] != p,
        },
    decreases pats.len(),
{
    if pats.len() > 0 && pats[0] != p {
        lemma_find_code_props(pats.skip(1), p);
        match find_code(pats.skip(1), p) {
            Option::Some(c) => {
                assert(pats.skip(1)[c - 1] == p);
            },
            Option::None => {
                assert forall|k: int| 0 <= k < pats.len() implies pats[k] != p by {
                    if k > 0 {
                        assert(pats.skip(1)[k - 1] == pats[k]);
                    }
                }
            },
        }
    }
}

/// The pattern a code stands for, if the code is in range.
pub open spec fn code_pattern(pats: Seq<Seq<u8>>, b: u8) -> Option<Seq<u8>> {
    if 1 <= b && (b as int) <= pats.len() {
        Option::Some(pats[b - 1])
    } else {
        Option::None
    }
}

impl Preprocessor {
    pub open spec fn pats(self) -> Seq<Seq<u8>> {
        pats_view(self.patterns@)
    }

    pub open spec fn freqs(self) -> Seq<u32> {
        self.code_frequencies@
    }

    pub open spec fn wf(self) -> bool {
        &&& self.pats().len() <= 254
        &&& self.freqs().len() == self.pats().len()
        &&& forall|k: int|
            0 <= k < self.pats().len() ==> 1 <= (#[trigger] self.pats()[k]).len() <= 255
        &&& 2 <= self.max_pattern_length <= 4
    }

    /// An empty table; the pattern length cap starts at its largest value.
    pub fn new() -> (r: Self)
        ensures
            r.wf(),
            r.pats().len() == 0,
            r.max_pattern_length == 4,
    {
        Preprocessor {
            patterns: Vec::new(),
            code_frequencies: Vec::new(),
            max_pattern_length: 4,
        }
    }
}

/// Compares a window of `data` with a pattern.
fn window_eq(data: &[u8], i: usize, size: usize, p: &Vec<u8>) -> (r: bool)
    requires
        i + size <= data@.len(),
    ensures
        r == (data@.subrange(i as int, i + size) == p@),
{
    if p.len() != size {
        proof {
            assert(data@.subrange(i as int, i + size).len() == size);
        }
        return false;
    }
    let n = data.len();
    let mut k: usize = 0;
    while k < size
        invariant
            n == data@.len(),
            i + size <= n,
            k <= size,
            p@.len() == size,
            forall|m: int| 0 <= m < k ==> data@[i + m] == p@[m],
        decreases size - k,
    {
        if data[i + k] != p[k] {
            proof {
                assert(data@.subrange(i as int, i + size)[k as int] == data@[i + k]);
            }
            return false;
        }
        k += 1;
    }
    proof {
        assert(data@.subrange(i as int, i + size) =~= p@);
    }
    true
}

/// Looks a byte sequence up in the table, returning its code.
fn lookup_window(patterns: &Vec<Vec<u8>>, data: &[u8], i: usize, size: usize) -> (r: Option<u8>)
    requires
        i + size <= data@.len(),
        pats_view(patterns@).len() <= 254,
    ensures
        match r {
            Option::Some(c) => Option::Some(c as int) == find_code(
                pats_view(patterns@),
                data@.subrange(i as int, i + size),
            ),
            Option::None => find_code(pats_view(patterns@), data@.subrange(i as int, i + size))
                is None,
        },
{
    let ghost pats = pats_view(patterns@);
    let ghost w = data@.subrange(i as int, i + size);
    proof {
        assert(pats.skip(0) =~= pats);
    }
    let mut k: usize = 0;
    while k < patterns.len()
        invariant
            i + size <= data@.len(),
            pats == pats_view(patterns@),
            w == data@.subrange(i as int, i + size),
            pats.len() == patterns@.len() <= 254,
            k <= pats.len(),
            find_code(pats, w) == (match find_code(pats.skip(k as int), w) {
                Option::Some(c) => Option::Some(c + k),
                Option::None => Option::None::<int>,
            }),
        decreases pats.len() - k,
    {
        proof {
            assert(pats.skip(k as int)[0] == pats[k as int]);
            assert(pats.skip(k as int).skip(1) =~= pats.skip(k + 1));
            assert(pats[k as int] == patterns@[k as int]@);
        }
        if window_eq(data, i, size, &patterns[k]) {
            return Some((k + 1) as u8);
        }
        k += 1;
    }
    proof {
        assert(pats.skip(pats.len() as int).len() == 0);
    }
    None
}

/// The longest match at position `i`, trying window sizes from `size` down
/// to 2; yields the code and the matched length.
pub open spec fn spec_find_match(pats: Seq<Seq<u8>>, data: Seq<u8>, i: int, size: int) -> Option<
    (int, int),
>
    decreases size,
{
    if size < 2 {
        Option::None
    } else if i + size <= data.len() && find_code(pats, data.subrange(i, i + size)) is Some {
        Option::Some((find_code(pats, data.subrange(i, i + size))->Some_0, size))
    } else {
        spec_find_match(pats, data, i, size - 1)
    }
}

pub proof fn lemma_find_match_props(pats: Seq<Seq<u8>>, data: Seq<u8>, i: int, size: int)
    ensures
        match spec_find_match(pats, data, i, size) {
            Option::Some(m) => {
                &&& 2 <= m.1 <= size
                &&& i + m.1 <= data.len()
                &&& find_code(pats, data.subrange(i, i + m.1)) == Option::Some(m.0)
            },
            Option::None => true,
        },
    decreases size,
{
    if size >= 2 && !(i + size <= data.len() && find_code(pats, data.subrange(i, i + size))
        is Some) {
        lemma_find_match_props(pats, data, i, size - 1);
    }
}

/// What one code is emitted as, by the frequency threshold: the bare code
/// byte when its pattern was seen often, else the escape marker and the
/// code byte.
pub open spec fn spec_encode_code(code: u16, frequency: u32) -> Seq<u8> {
    if frequency > 100 {
        seq![code as u8]
    } else {
        seq![255u8, code as u8]
    }
}

/// What one unmatched byte is emitted as. A byte with a single-byte code is
/// re-encoded by the frequency threshold. A bare literal may not collide
/// with the decoder's code channel, so a literal equal to the escape marker
/// or falling in the code range is written behind the escape marker and the
/// reserved code zero; every other literal passes through unchanged.
pub open spec fn spec_literal_unit(pats: Seq<Seq<u8>>, freqs: Seq<u32>, b: u8) -> Seq<u8> {
    match find_code(pats, seq![b]) {
        Option::Some(c) => spec_encode_code(c as u16, freqs[c - 1]),
        Option::None => if b == 255 || (1 <= b && (b as int) <= pats.len()) {
            seq![255u8, 0u8, b]
        } else {
            seq![b]
        },
    }
}

/// The greedy left-to-right pass from position `i`: the longest table match
/// is replaced by its code byte, an unmatched byte is emitted as its
/// literal unit.
pub open spec fn spec_transform(
    pats: Seq<Seq<u8>>,
    freqs: Seq<u32>,
    max_len: int,
    data: Seq<u8>,
    i: int,
) -> Seq<u8>
    decreases data.len() - i,
    via spec_transform_decreases
{
    if i < 0 || i >= data.len() {
        Seq::empty()
    } else {
        let limit = if max_len <= data.len() - i {
            max_len
        } else {
            data.len() - i
        };
        match spec_find_match(pats, data, i, limit) {
            Option::Some(m) => seq![m.0 as u8] + spec_transform(
                pats,
                freqs,
                max_len,
                data,
                i + m.1,
            ),
            Option::None => spec_literal_unit(pats, freqs, data[i]) + spec_transform(
                pats,
                freqs,
                max_len,
                data,
                i + 1,
            ),
        }
    }
}

#[via_fn]
proof fn spec_transform_decreases(
    pats: Seq<Seq<u8>>,
    freqs: Seq<u32>,
    max_len: int,
    data: Seq<u8>,
    i: int,
) {
    if 0 <= i < data.len() {
        let limit = if max_len <= data.len() - i {
            max_len
        } else {
            data.len() - i
        };
        lemma_find_match_props(pats, data, i, limit);
    }
}

/// The full forward preprocessing of a buffer against a table.
pub open spec fn spec_preprocessed(
    pats: Seq<Seq<u8>>,
    freqs: Seq<u32>,
    max_len: int,
    data: Seq<u8>,
) -> Seq<u8> {
    spec_transform(pats, freqs, max_len, data, 0)
}

impl Preprocessor {
    /// Substitutes the longest table matches greedily; each unmatched byte
    /// is re-encoded on the spot, so a rare single-byte code or a colliding
    /// literal goes behind the escape marker.
    pub fn transform_data(&self, data: &[u8]) -> (r: Vec<u8>)
        requires
            self.wf(),
        ensures
            r@ == spec_preprocessed(
                self.pats(),
                self.freqs(),
                self.max_pattern_length as int,
                data@,
            ),
    {
        let pats_g: Ghost<Seq<Seq<u8>>> = Ghost(self.pats());
        let freqs_g: Ghost<Seq<u32>> = Ghost(self.freqs());
        let n = data.len();
        let mut out: Vec<u8> = Vec::new();
        let mut i: usize = 0;
        while i < n
            invariant
                self.wf(),
                pats_g@ == self.pats(),
                freqs_g@ == self.freqs(),
                n == data@.len(),
                i <= n,
                spec_transform(pats_g@, freqs_g@, self.max_pattern_length as int, data@, 0)
                    == out@ + spec_transform(
                    pats_g@,
                    freqs_g@,
                    self.max_pattern_length as int,
                    data@,
                    i as int,
                ),
            decreases n - i,
        {
            let limit = if self.max_pattern_length <= n - i {
                self.max_pattern_length
            } else {
                n - i
            };
            let mut size = limit;
            let mut matched: Option<u8> = None;
            let ghost limit0 = limit as int;
            while size >= 2 && matched.is_none()
                invariant
                    self.wf(),
                    pats_g@ == self.pats(),
                    n == data@.len(),
                    i < n,
                    limit as int == limit0,
                    i + limit <= n,
                    size <= limit,
                    matched is None ==> spec_find_match(pats_g@, data@, i as int, limit0)
                        == spec_find_match(pats_g@, data@, i as int, size as int),
                    matched matches Some(c) ==> spec_find_match(pats_g@, data@, i as int, limit0)
                        matches Some(m) && m.0 == c as int && m.1 == size as int,
                decreases size + (if matched is None {
                    1int
                } else {
                    0int
                }),
            {
                match lookup_window(&self.patterns, data, i, size) {
                    Some(c) => {
                        matched = Some(c);
                    },
                    None => {
                        size -= 1;
                    },
                }
            }
            let ghost pre = out@;
            match matched {
                Some(c) => {
                    out.push(c);
                    proof {
                        lemma_find_match_props(pats_g@, data@, i as int, limit0);
                        assert(spec_transform(
                            pats_g@,
                            freqs_g@,
                            self.max_pattern_length as int,
                            data@,
                            i as int,
                        ) == seq![c] + spec_transform(
                            pats_g@,
                            freqs_g@,
                            self.max_pattern_length as int,
                            data@,
                            i + size,
                        ));
                        assert(out@ + spec_transform(
                            pats_g@,
                            freqs_g@,
                            self.max_pattern_length as int,
                            data@,
                            i + size,
                        ) =~= pre + (seq![c] + spec_transform(
                            pats_g@,
                            freqs_g@,
                            self.max_pattern_length as int,
                            data@,
                            i + size,
                        )));
                    }
                    i += size;
                },
                None => {
                    let b = data[i];
                    self.append_literal(b, &mut out);
                    proof {
                        assert(spec_transform(
                            pats_g@,
                            freqs_g@,
                            self.max_pattern_length as int,
                            data@,
                            i as int,
                        ) == spec_literal_unit(pats_g@, freqs_g@, b) + spec_transform(
                            pats_g@,
                            freqs_g@,
                            self.max_pattern_length as int,
                            data@,
                            i + 1,
                        ));
                        assert(out@ + spec_transform(
                            pats_g@,
                            freqs_g@,
                            self.max_pattern_length as int,
                            data@,
                            i + 1,
                        ) =~= pre + (spec_literal_unit(pats_g@, freqs_g@, b) + spec_transform(
                            pats_g@,
                            freqs_g@,
                            self.max_pattern_length as int,
                            data@,
                            i + 1,
                        )));
                    }
                    i += 1;
                },
            }
        }
        proof {
            assert(spec_transform(
                pats_g@,
                freqs_g@,
                self.max_pattern_length as int,
                data@,
                n as int,
            ) =~= Seq::<u8>::empty());
            assert(out@ + Seq::<u8>::empty() =~= out@);
        }
        out
    }

    /// Emits one unmatched byte: its re-encoded single-byte code when it has
    /// one, the escaped form when it would collide with the code channel,
    /// else the byte itself.
    fn append_literal(&self, b: u8, out: &mut Vec<u8>)
        requires
            self.wf(),
        ensures
            final(out)@ == old(out)@ + spec_literal_unit(self.pats(), self.freqs(), b),
    {
        let single: Vec<u8> = vec![b];
        proof {
            assert(single@ =~= seq![b]);
            assert(single@.subrange(0, 1) =~= seq![b]);
        }
        match lookup_window(&self.patterns, single.as_slice(), 0, 1) {
            Some(c) => {
                proof {
                    lemma_find_code_props(self.pats(), seq![b]);
                }
                let frequency = self.code_frequencies[(c - 1) as usize];
                if frequency > 100 {
                    out.push(c);
                    proof {
                        assert(out@ =~= old(out)@ + spec_literal_unit(
                            self.pats(),
                            self.freqs(),
                            b,
                        ));
                    }
                } else {
                    out.push(255);
                    out.push(c);
                    proof {
                        assert(out@ =~= old(out)@ + spec_literal_unit(
                            self.pats(),
                            self.freqs(),
                            b,
                        ));
                    }
                }
            },
            None => {
                if b == 255 || (1 <= b && (b as usize) <= self.patterns.len()) {
                    out.push(255);
                    out.push(0);
                    out.push(b);
                    proof {
                        assert(out@ =~= old(out)@ + spec_literal_unit(
                            self.pats(),
                            self.freqs(),
                            b,
                        ));
                    }
                } else {
                    out.push(b);
                    proof {
                        assert(out@ =~= old(out)@ + spec_literal_unit(
                            self.pats(),
                            self.freqs(),
                            b,
                        ));
                    }
                }
            },
        }
    }
}

/// The inverse of the forward pass: the escape marker followed by the
/// reserved code zero carries one literal byte; the escape marker followed
/// by anything else makes that byte a code; otherwise a byte in code range
/// is a code and anything else a literal. Fails on a truncated escape and
/// on an escaped code with no table entry.
pub open spec fn spec_reverse(pats: Seq<Seq<u8>>, s: Seq<u8>) -> Option<Seq<u8>>
    decreases s.len(),
{
    if s.len() == 0 {
        Option::Some(Seq::empty())
    } else if s[0] == 255 {
        if s.len() < 2 {
            Option::None
        } else if s[1] == 0 {
            if s.len() < 3 {
                Option::None
            } else {
                match spec_reverse(pats, s.skip(3)) {
                    Option::Some(t) => Option::Some(seq![s[2]] + t),
                    Option::None => Option::None,
                }
            }
        } else {
            match code_pattern(pats, s[1]) {
                Option::Some(p) => match spec_reverse(pats, s.skip(2)) {
                    Option::Some(t) => Option::Some(p + t),
                    Option::None => Option::None,
                },
                Option::None => Option::None,
            }
        }
    } else {
        match spec_reverse(pats, s.skip(1)) {
            Option::Some(t) => match code_pattern(pats, s[0]) {
                Option::Some(p) => Option::Some(p + t),
                Option::None => Option::Some(seq![s[0]] + t),
            },
            Option::None => Option::None,
        }
    }
}

/// One serialized table record: the code big-endian in two bytes, the
/// pattern length in one, then the pattern bytes.
pub open spec fn spec_pat_record(pats: Seq<Seq<u8>>, k: int) -> Seq<u8> {
    seq![(((k + 1) / 256) % 256) as u8, ((k + 1) % 256) as u8, pats[k].len() as u8] + pats[k]
}

pub open spec fn spec_ser_pat_from(pats: Seq<Seq<u8>>, k: int) -> Seq<u8>
    decreases pats.len() - k,
{
    if k < 0 || k >= pats.len() {
        Seq::empty()
    } else {
        spec_pat_record(pats, k) + spec_ser_pat_from(pats, k + 1)
    }
}

/// The serialized pattern table: one record per code, ascending code order.
pub open spec fn spec_ser_pat(pats: Seq<Seq<u8>>) -> Seq<u8> {
    spec_ser_pat_from(pats, 0)
}

/// Parses serialized records; codes must run 1, 2, 3, ... and patterns must
/// be nonempty, with at most 254 records.
pub open spec fn spec_deser_pat_rec(s: Seq<u8>, k: int) -> Option<Seq<Seq<u8>>>
    decreases s.len(),
{
    if s.len() == 0 {
        Option::Some(Seq::empty())
    } else if s.len() < 3 {
        Option::None
    } else {
        let code = (s[0] as int) * 256 + (s[1] as int);
        let plen = s[2] as int;
        if code != k + 1 || plen == 0 || s.len() < 3 + plen || k >= 254 {
            Option::None
        } else {
            match spec_deser_pat_rec(s.skip(3 + plen), k + 1) {
                Option::Some(rest) => Option::Some(seq![s.subrange(3, 3 + plen)] + rest),
                Option::None => Option::None,
            }
        }
    }
}

pub open spec fn spec_deser_pat(s: Seq<u8>) -> Option<Seq<Seq<u8>>> {
    spec_deser_pat_rec(s, 0)
}

/// Appends one byte vector to another.
pub(crate) fn push_all(out: &mut Vec<u8>, p: &Vec<u8>)
    ensures
        final(out)@ == old(out)@ + p@,
{
    let mut k: usize = 0;
    while k < p.len()
        invariant
            k <= p@.len(),
            out@ == old(out)@ + p@.take(k as int),
        decreases p@.len() - k,
    {
        out.push(p[k]);
        proof {
            assert(old(out)@ + p@.take(k + 1) =~= (old(out)@ + p@.take(k as int)).push(
                p@[k as int],
            ));
        }
        k += 1;
    }
    proof {
        assert(p@.take(p@.len() as int) =~= p@);
    }
}

/// Copies `data[start..end]` into a fresh vector.
pub(crate) fn copy_range(data: &[u8], start: usize, end: usize) -> (r: Vec<u8>)
    requires
        start <= end <= data@.len(),
    ensures
        r@ == data@.subrange(start as int, end as int),
{
    let n = data.len();
    let mut r: Vec<u8> = Vec::new();
    let mut k: usize = start;
    while k < end
        invariant
            n == data@.len(),
            start <= k <= end <= n,
            r@ == data@.subrange(start as int, k as int),
        decreases end - k,
    {
        r.push(data[k]);
        proof {
            assert(data@.subrange(start as int, k + 1) =~= data@.subrange(
                start as int,
                k as int,
            ).push(data@[k as int]));
        }
        k += 1;
    }
    r
}

impl Preprocessor {
    /// Re-encodes one code by the frequency threshold: the bare code byte
    /// when its pattern was seen more than a hundred times, else the escape
    /// marker followed by the code byte.
    pub fn encode_code(&self, code: u16, frequency: u32) -> (r: Vec<u8>)
        ensures
            r@ == spec_encode_code(code, frequency),
    {
        if frequency > 100 {
            let b = #[verifier::truncate] (code as u8);
            vec![b]
        } else {
            let b = #[verifier::truncate] (code as u8);
            vec![255u8, b]
        }
    }

    /// Inverts the substitution and re-encoding passes jointly against the
    /// table, for any stream the forward passes produced.
    pub fn reverse_transform_data(&self, data: &[u8]) -> (r: Result<Vec<u8>, FormatError>)
        requires
            self.wf(),
        ensures
            r is Ok <==> spec_reverse(self.pats(), data@) is Some,
            r matches Ok(v) ==> Option::Some(v@) == spec_reverse(self.pats(), data@),
    {
        let ghost pats = self.pats();
        let n = data.len();
        let mut out: Vec<u8> = Vec::new();
        let mut i: usize = 0;
        proof {
            assert(data@.skip(0) =~= data@);
            match spec_reverse(pats, data@) {
                Option::Some(t) => {
                    assert(out@ + t =~= t);
                },
                Option::None => {},
            }
        }
        while i < n
            invariant
                self.wf(),
                pats == self.pats(),
                n == data@.len(),
                i <= n,
                spec_reverse(pats, data@) == (match spec_reverse(pats, data@.skip(i as int)) {
                    Option::Some(t) => Option::Some(out@ + t),
                    Option::None => Option::None::<Seq<u8>>,
                }),
            decreases n - i,
        {
            let ghost pre = out@;
            let b = data[i];
            proof {
                assert(data@.skip(i as int)[0] == b);
            }
            if b == 255 {
                if i + 1 >= n {
                    proof {
                        assert(data@.skip(i as int).len() < 2);
                    }
                    return Err(FormatError);
                }
                let code = data[i + 1];
                proof {
                    assert(data@.skip(i as int)[1] == code);
                    assert(data@.skip(i as int).skip(2) =~= data@.skip(i + 2));
                }
                if code == 0 {
                    if i + 2 >= n {
                        proof {
                            assert(data@.skip(i as int).len() < 3);
                        }
                        return Err(FormatError);
                    }
                    let lit = data[i + 2];
                    proof {
                        assert(data@.skip(i as int)[2] == lit);
                        assert(data@.skip(i as int).skip(3) =~= data@.skip(i + 3));
                    }
                    out.push(lit);
                    proof {
                        assert(out@ == pre.push(lit));
                        match spec_reverse(pats, data@.skip(i + 3)) {
                            Option::Some(t) => {
                                assert(pre + (seq![lit] + t) =~= pre.push(lit) + t);
                            },
                            Option::None => {},
                        }
                    }
                    i += 3;
                } else if 1 <= code && (code as usize) <= self.patterns.len() {
                    push_all(&mut out, &self.patterns[(code - 1) as usize]);
                    proof {
                        assert(code_pattern(pats, code) == Option::Some(pats[code - 1]));
                        assert(out@ == pre + pats[code - 1]);
                        match spec_reverse(pats, data@.skip(i + 2)) {
                            Option::Some(t) => {
                                assert(pre + (pats[code - 1] + t) =~= (pre + pats[code - 1]) + t);
                            },
                            Option::None => {},
                        }
                    }
                    i += 2;
                } else {
                    proof {
                        assert(code_pattern(pats, code) is None);
                    }
                    return Err(FormatError);
                }
            } else {
                proof {
                    assert(data@.skip(i as int).skip(1) =~= data@.skip(i + 1));
                }
                if 1 <= b && (b as usize) <= self.patterns.len() {
                    push_all(&mut out, &self.patterns[(b - 1) as usize]);
                    proof {
                        assert(code_pattern(pats, b) == Option::Some(pats[b - 1]));
                        assert(out@ == pre + pats[b - 1]);
                        match spec_reverse(pats, data@.skip(i + 1)) {
                            Option::Some(t) => {
                                assert(pre + (pats[b - 1] + t) =~= (pre + pats[b - 1]) + t);
                            },
                            Option::None => {},
                        }
                    }
                } else {
                    out.push(b);
                    proof {
                        assert(code_pattern(pats, b) is None);
                        assert(out@ == pre.push(b));
                        match spec_reverse(pats, data@.skip(i + 1)) {
                            Option::Some(t) => {
                                assert(pre + (seq![b] + t) =~= pre.push(b) + t);
                            },
                            Option::None => {},
                        }
                    }
                }
                i += 1;
            }
        }
        proof {
            assert(data@.skip(n as int).len() == 0);
            assert(out@ + Seq::<u8>::empty() =~= out@);
        }
        Ok(out)
    }

    /// Writes the table as one record per code, in ascending code order.
    pub fn serialize_dictionary(&self) -> (r: Vec<u8>)
        requires
            self.wf(),
        ensures
            r@ == spec_ser_pat(self.pats()),
    {
        let ghost pats = self.pats();
        let mut out: Vec<u8> = Vec::new();
        let mut k: usize = 0;
        proof {
            assert(out@ + spec_ser_pat_from(pats, 0) =~= spec_ser_pat_from(pats, 0));
        }
        while k < self.patterns.len()
            invariant
                self.wf(),
                pats == self.pats(),
                k <= pats.len(),
                spec_ser_pat(pats) == out@ + spec_ser_pat_from(pats, k as int),
            decreases pats.len() - k,
        {
            let ghost pre = out@;
            let code: u16 = (k as u16) + 1;
            out.push((code / 256) as u8);
            out.push((code % 256) as u8);
            let p = &self.patterns[k];
            out.push(p.len() as u8);
            push_all(&mut out, p);
            proof {
                assert(p@ == pats[k as int]);
                assert(out@ =~= pre + spec_pat_record(pats, k as int));
                assert(pre + (spec_pat_record(pats, k as int) + spec_ser_pat_from(pats, k + 1))
                    =~= (pre + spec_pat_record(pats, k as int)) + spec_ser_pat_from(pats, k + 1));
            }
            k += 1;
        }
        proof {
            assert(spec_ser_pat_from(pats, pats.len() as int) =~= Seq::<u8>::empty());
            assert(out@ + Seq::<u8>::empty() =~= out@);
        }
        out
    }

    /// Reads a serialized table back, replacing this table's patterns; the
    /// recorded frequencies are not part of the serialized form, so every
    /// code comes back with frequency zero. The table is left unchanged on a
    /// malformed input.
    pub fn deserialize_dictionary(&mut self, serialized: &[u8]) -> (r: Result<(), FormatError>)
        requires
            old(self).wf(),
        ensures
            final(self).wf(),
            final(self).max_pattern_length == old(self).max_pattern_length,
            r is Ok <==> spec_deser_pat(serialized@) is Some,
            r matches Ok(u) ==> Option::Some(final(self).pats()) == spec_deser_pat(serialized@),
            r is Ok ==> forall|k: int|
                0 <= k < final(self).freqs().len() ==> #[trigger] final(self).freqs()[k] == 0,
            r is Err ==> *final(self) == *old(self),
    {
        let s = serialized;
        let n = s.len();
        let mut newpats: Vec<Vec<u8>> = Vec::new();
        let mut count: usize = 0;
        let mut i: usize = 0;
        proof {
            assert(s@.skip(0) =~= s@);
            match spec_deser_pat(s@) {
                Option::Some(rest) => {
                    assert(pats_view(newpats@) + rest =~= rest);
                },
                Option::None => {},
            }
        }
        while i < n
            invariant
                *self == *old(self),
                self.wf(),
                s@ == serialized@,
                n == s@.len(),
                i <= n,
                count == newpats@.len(),
                count <= 254,
                forall|k: int|
                    0 <= k < newpats@.len() ==> 1 <= (#[trigger] newpats@[k])@.len() <= 255,
                spec_deser_pat(s@) == (match spec_deser_pat_rec(s@.skip(i as int), count as int) {
                    Option::Some(rest) => Option::Some(pats_view(newpats@) + rest),
                    Option::None => Option::None::<Seq<Seq<u8>>>,
                }),
            decreases n - i,
        {
            let ghost rem = s@.skip(i as int);
            if n - i < 3 {
                return Err(FormatError);
            }
            let code_hi = s[i];
            let code_lo = s[i + 1];
            let plen = s[i + 2] as usize;
            proof {
                assert(rem[0] == code_hi);
                assert(rem[1] == code_lo);
                assert(rem[2] == s@[i + 2]);
            }
            let code: usize = (code_hi as usize) * 256 + (code_lo as usize);
            if code != count + 1 || plen == 0 || n - i < 3 + plen || count >= 254 {
                return Err(FormatError);
            }
            let p = copy_range(s, i + 3, i + 3 + plen);
            proof {
                assert(rem.subrange(3, 3 + plen as int) =~= s@.subrange(
                    i + 3,
                    i + 3 + plen as int,
                ));
                assert(rem.skip(3 + plen as int) =~= s@.skip(i + 3 + plen as int));
            }
            let ghost oldpats = pats_view(newpats@);
            newpats.push(p);
            proof {
                assert(pats_view(newpats@) =~= oldpats.push(s@.subrange(i + 3, i + 3 + plen as int)));
                match spec_deser_pat_rec(s@.skip(i + 3 + plen as int), count + 1) {
                    Option::Some(rest) => {
                        assert(oldpats + (seq![s@.subrange(i + 3, i + 3 + plen as int)] + rest)
                            =~= pats_view(newpats@) + rest);
                    },
                    Option::None => {},
                }
            }
            count += 1;
            i += 3 + plen;
        }
        proof {
            assert(s@.skip(n as int).len() == 0);
            assert(spec_deser_pat_rec(s@.skip(n as int), count as int) == Option::Some(
                Seq::<Seq<u8>>::empty(),
            ));
            assert(pats_view(newpats@) + Seq::<Seq<u8>>::empty() =~= pats_view(newpats@));
        }
        let mut zeros: Vec<u32> = Vec::new();
        let mut z: usize = 0;
        while z < count
            invariant
                z <= count,
                zeros@.len() == z,
                forall|k: int| 0 <= k < z ==> #[trigger] zeros@[k] == 0,
            decreases count - z,
        {
            zeros.push(0);
            z += 1;
        }
        self.patterns = newpats;
        self.code_frequencies = zeros;
        Ok(())
    }
}

/// The contiguous windows of one size, left to right, from position `i`.
pub open spec fn windows_of_size(data: Seq<u8>, size: int, i: int) -> Seq<Seq<u8>>
    decreases data.len() - i,
{
    if size < 1 || i < 0 || i + size > data.len() {
        Seq::empty()
    } else {
        seq![data.subrange(i, i + size)] + windows_of_size(data, size, i + 1)
    }
}

/// All windows of sizes `size` through `max`, sizes ascending.
pub open spec fn windows_from(data: Seq<u8>, size: int, max: int) -> Seq<Seq<u8>>
    decreases max - size + 1,
{
    if size < 1 || size > max {
        Seq::empty()
    } else {
        windows_of_size(data, size, 0) + windows_from(data, size + 1, max)
    }
}

/// How many entries of `ws` equal `w`.
pub open spec fn count_in(ws: Seq<Seq<u8>>, w: Seq<u8>) -> nat
    decreases ws.len(),
{
    if ws.len() == 0 {
        0
    } else {
        count_in(ws.drop_last(), w) + if ws.last() == w {
            1nat
        } else {
            0nat
        }
    }
}

/// The distinct entries of `ws` in first-occurrence order.
pub open spec fn dedup(ws: Seq<Seq<u8>>) -> Seq<Seq<u8>>
    decreases ws.len(),
{
    if ws.len() == 0 {
        Seq::empty()
    } else {
        let d = dedup(ws.drop_last());
        if d.contains(ws.last()) {
            d
        } else {
            d.push(ws.last())
        }
    }
}

pub proof fn lemma_dedup_props(ws: Seq<Seq<u8>>)
    ensures
        forall|w: Seq<u8>| dedup(ws).contains(w) <==> ws.contains(w),
        forall|k1: int, k2: int|
            0 <= k1 < k2 < dedup(ws).len() ==> #[trigger] dedup(ws)[k1] != #[trigger] dedup(ws)[k2],
    decreases ws.len(),
{
    if ws.len() > 0 {
        lemma_dedup_props(ws.drop_last());
        let d = dedup(ws.drop_last());
        assert forall|w: Seq<u8>| dedup(ws).contains(w) <==> ws.contains(w) by {
            if dedup(ws).contains(w) {
                if d.contains(w) {
                    assert(ws.drop_last().contains(w));
                    let q = choose|q: int|
                        0 <= q < ws.drop_last().len() && ws.drop_last()[q] == w;
                    assert(ws[q] == w);
                } else {
                    assert(w == ws.last());
                    assert(ws[ws.len() - 1] == w);
                }
            }
            if ws.contains(w) {
                let q = choose|q: int| 0 <= q < ws.len() && ws[q] == w;
                if q < ws.len() - 1 {
                    assert(ws.drop_last()[q] == w);
                    assert(ws.drop_last().contains(w));
                    assert(d.contains(w));
                    if !d.contains(ws.last()) {
                        let m = choose|m: int| 0 <= m < d.len() && d[m] == w;
                        assert(dedup(ws)[m] == w);
                    }
                } else {
                    if d.contains(ws.last()) {
                        let m = choose|m: int| 0 <= m < d.len() && d[m] == w;
                        assert(dedup(ws)[m] == w);
                    } else {
                        assert(dedup(ws)[dedup(ws).len() - 1] == w);
                    }
                }
            }
        }
        if !d.contains(ws.last()) {
            assert forall|k1: int, k2: int|
                0 <= k1 < k2 < dedup(ws).len() implies #[trigger] dedup(ws)[k1]
                != #[trigger] dedup(ws)[k2] by {
                if k2 == dedup(ws).len() - 1 {
                    assert(d.contains(d[k1]));
                }
            }
        }
    }
}

pub proof fn lemma_count_in_le(ws: Seq<Seq<u8>>, w: Seq<u8>)
    ensures
        count_in(ws, w) <= ws.len(),
        count_in(ws, w) > 0 <==> ws.contains(w),
    decreases ws.len(),
{
    if ws.len() > 0 {
        lemma_count_in_le(ws.drop_last(), w);
        if ws.contains(w) && ws.last() != w {
            let q = choose|q: int| 0 <= q < ws.len() && ws[q] == w;
            assert(ws.drop_last()[q] == w);
        }
        if ws.drop_last().contains(w) {
            let q = choose|q: int| 0 <= q < ws.len() - 1 && ws.drop_last()[q] == w;
            assert(ws[q] == w);
        }
    }
}

proof fn lemma_windows_of_size_len(data: Seq<u8>, size: int, i: int)
    requires
        i >= 0,
    ensures
        windows_of_size(data, size, i).len() <= data.len() - i
            || windows_of_size(data, size, i).len() == 0,
        forall|k: int| 0 <= k < windows_of_size(data, size, i).len() ==> (
        #[trigger] windows_of_size(data, size, i)[k]).len() == size,
    decreases data.len() - i,
{
    if !(size < 1 || i < 0 || i + size > data.len()) {
        lemma_windows_of_size_len(data, size, i + 1);
        assert forall|k: int| 0 <= k < windows_of_size(data, size, i).len() implies (
        #[trigger] windows_of_size(data, size, i)[k]).len() == size by {
            if k > 0 {
                assert(windows_of_size(data, size, i)[k] == windows_of_size(data, size, i + 1)[k
                    - 1]);
            }
        }
    }
}

proof fn lemma_windows_from_len(data: Seq<u8>, size: int, max: int)
    requires
        1 <= size,
        max <= 4,
    ensures
        windows_from(data, size, max).len() <= (max + 1 - size) * data.len() || windows_from(
            data,
            size,
            max,
        ).len() == 0,
        forall|k: int| 0 <= k < windows_from(data, size, max).len() ==> 1 <= (
        #[trigger] windows_from(data, size, max)[k]).len() <= max,
    decreases max - size + 1,
{
    if !(size < 1 || size > max) {
        lemma_windows_of_size_len(data, size, 0);
        lemma_windows_from_len(data, size + 1, max);
        let a = windows_of_size(data, size, 0);
        let b = windows_from(data, size + 1, max);
        assert(a.len() + b.len() <= (max + 1 - size) * data.len()) by (nonlinear_arith)
            requires
                a.len() <= data.len(),
                b.len() <= (max - size) * data.len() || b.len() == 0,
                size >= 1,
                size <= max,
        ;
        assert forall|k: int| 0 <= k < windows_from(data, size, max).len() implies 1 <= (
        #[trigger] windows_from(data, size, max)[k]).len() <= max by {
            if k < a.len() {
                assert(windows_from(data, size, max)[k] == a[k]);
            } else {
                assert(windows_from(data, size, max)[k] == b[k - a.len()]);
            }
        }
    }
}

/// Ordering of discovery candidates: frequency descending, ties by
/// ascending lexicographic byte order.
pub open spec fn lex_less(a: Seq<u8>, b: Seq<u8>) -> bool
    decreases a.len(),
{
    if a.len() == 0 {
        b.len() > 0
    } else if b.len() == 0 {
        false
    } else if a[0] < b[0] {
        true
    } else if a[0] > b[0] {
        false
    } else {
        lex_less(a.skip(1), b.skip(1))
    }
}

pub open spec fn pair_before(a: (Seq<u8>, u32), b: (Seq<u8>, u32)) -> bool {
    a.1 > b.1 || (a.1 == b.1 && lex_less(a.0, b.0))
}

pub open spec fn insert_sorted(x: (Seq<u8>, u32), s: Seq<(Seq<u8>, u32)>) -> Seq<(Seq<u8>, u32)>
    decreases s.len(),
{
    if s.len() == 0 {
        seq![x]
    } else if pair_before(x, s[0]) {
        seq![x] + s
    } else {
        seq![s[0]] + insert_sorted(x, s.skip(1))
    }
}

pub open spec fn fold_insert(s: Seq<(Seq<u8>, u32)>, k: int) -> Seq<(Seq<u8>, u32)>
    decreases k,
{
    if k <= 0 {
        Seq::empty()
    } else {
        insert_sorted(s[k - 1], fold_insert(s, k - 1))
    }
}

pub open spec fn filter_pairs(ps: Seq<(Seq<u8>, u32)>) -> Seq<(Seq<u8>, u32)>
    decreases ps.len(),
{
    if ps.len() == 0 {
        Seq::empty()
    } else {
        filter_pairs(ps.drop_last()) + if ps.last().1 > 1 {
            seq![ps.last()]
        } else {
            Seq::empty()
        }
    }
}

/// The candidate list of a buffer: each distinct window of length 1 through
/// `max`, in first-occurrence order, with its occurrence count.
pub open spec fn spec_candidates(data: Seq<u8>, max: int) -> Seq<(Seq<u8>, u32)> {
    let flat = windows_from(data, 1, max);
    Seq::new(dedup(flat).len(), |k: int| (dedup(flat)[k], count_in(flat, dedup(flat)[k]) as u32))
}

/// Discovery: candidates seen more than once, sorted by frequency descending
/// with ties broken by ascending byte order, capped at 254 codes.
pub open spec fn spec_discovered(data: Seq<u8>, max: int) -> Seq<(Seq<u8>, u32)> {
    let f = filter_pairs(spec_candidates(data, max));
    let sorted = fold_insert(f, f.len() as int);
    sorted.take(
        if sorted.len() > 254 {
            254int
        } else {
            sorted.len() as int
        },
    )
}

pub open spec fn spec_disc_pats(data: Seq<u8>, max: int) -> Seq<Seq<u8>> {
    spec_discovered(data, max).map_values(|p: (Seq<u8>, u32)| p.0)
}

pub open spec fn spec_disc_freqs(data: Seq<u8>, max: int) -> Seq<u32> {
    spec_discovered(data, max).map_values(|p: (Seq<u8>, u32)| p.1)
}

/// The per-run pattern length cap, from the number of distinct byte values.
pub open spec fn spec_max_len(data: Seq<u8>) -> int {
    let u = data.to_set().len();
    if u <= 16 {
        2
    } else if u <= 32 {
        3
    } else {
        4
    }
}

/// The whole forward pass of `preprocess`: discovery on the buffer, then the
/// substitution and re-encoding passes against the discovered table.
pub open spec fn spec_preprocess(data: Seq<u8>) -> Seq<u8> {
    spec_preprocessed(
        spec_disc_pats(data, spec_max_len(data)),
        spec_disc_freqs(data, spec_max_len(data)),
        spec_max_len(data),
        data,
    )
}

pub open spec fn zip_pairs(ps: Seq<Vec<u8>>, cs: Seq<u32>) -> Seq<(Seq<u8>, u32)> {
    Seq::new(ps.len(), |k: int| (ps[k]@, cs[k]))
}

/// Finds a candidate equal to `w`.
fn find_pattern_index(cands: &Vec<Vec<u8>>, w: &Vec<u8>) -> (r: Option<usize>)
    ensures
        match r {
            Option::Some(m) => (m as int) < cands@.len() && cands@[m as int]@ == w@,
            Option::None => forall|k: int| 0 <= k < cands@.len() ==> cands@[k]@ != w@,
        },
{
    let mut k: usize = 0;
    while k < cands.len()
        invariant
            k <= cands@.len(),
            forall|m: int| 0 <= m < k ==> cands@[m]@ != w@,
        decreases cands@.len() - k,
    {
        let c = &cands[k];
        proof {
            if c@.len() == w@.len() {
                assert(w@.subrange(0, w@.len() as int) =~= w@);
            }
        }
        if window_eq(w.as_slice(), 0, w.len(), c) {
            return Some(k);
        }
        k += 1;
    }
    None
}

fn lex_less_exec(a: &Vec<u8>, b: &Vec<u8>) -> (r: bool)
    ensures
        r == lex_less(a@, b@),
{
    let mut i: usize = 0;
    proof {
        assert(a@.skip(0) =~= a@);
        assert(b@.skip(0) =~= b@);
    }
    while i < a.len() && i < b.len()
        invariant
            i <= a@.len(),
            i <= b@.len(),
            lex_less(a@, b@) == lex_less(a@.skip(i as int), b@.skip(i as int)),
            forall|m: int| 0 <= m < i ==> a@[m] == b@[m],
        decreases a@.len() - i,
    {
        proof {
            assert(a@.skip(i as int)[0] == a@[i as int]);
            assert(b@.skip(i as int)[0] == b@[i as int]);
            assert(a@.skip(i as int).skip(1) =~= a@.skip(i + 1));
            assert(b@.skip(i as int).skip(1) =~= b@.skip(i + 1));
        }
        if a[i] < b[i] {
            return true;
        }
        if a[i] > b[i] {
            return false;
        }
        i += 1;
    }
    proof {
        if i >= a.len() {
            assert(a@.skip(i as int).len() == 0);
        } else {
            assert(b@.skip(i as int).len() == 0);
            assert(a@.skip(i as int).len() > 0);
        }
    }
    i < b.len()
}

fn pair_before_exec(ap: &Vec<u8>, ac: u32, bp: &Vec<u8>, bc: u32) -> (r: bool)
    ensures
        r == pair_before((ap@, ac), (bp@, bc)),
{
    ac > bc || (ac == bc && lex_less_exec(ap, bp))
}

proof fn lemma_insert_at(x: (Seq<u8>, u32), s: Seq<(Seq<u8>, u32)>, pos: int)
    requires
        0 <= pos <= s.len(),
        forall|k: int| 0 <= k < pos ==> !pair_before(x, #[trigger] s[k]),
        pos < s.len() ==> pair_before(x, s[pos]),
    ensures
        insert_sorted(x, s) =~= s.take(pos) + seq![x] + s.skip(pos),
    decreases pos,
{
    if pos == 0 {
        if s.len() == 0 {
            assert(insert_sorted(x, s) =~= s.take(0) + seq![x] + s.skip(0));
        } else {
            assert(pair_before(x, s[0]));
            assert(insert_sorted(x, s) =~= s.take(0) + seq![x] + s.skip(0));
        }
    } else {
        assert(!pair_before(x, s[0]));
        assert forall|k: int| 0 <= k < pos - 1 implies !pair_before(x, #[trigger] s.skip(1)[k]) by {
            assert(s.skip(1)[k] == s[k + 1]);
        }
        assert(pos - 1 < s.skip(1).len() ==> pair_before(x, s.skip(1)[pos - 1]));
        lemma_insert_at(x, s.skip(1), pos - 1);
        assert(insert_sorted(x, s) =~= seq![s[0]] + (s.skip(1).take(pos - 1) + seq![x]
            + s.skip(1).skip(pos - 1)));
        assert(s.skip(1).take(pos - 1) =~= s.take(pos).skip(1));
        assert(s.skip(1).skip(pos - 1) =~= s.skip(pos));
        assert(seq![s[0]] + (s.take(pos).skip(1) + seq![x] + s.skip(pos)) =~= s.take(pos) + seq![x]
            + s.skip(pos));
    }
}

proof fn lemma_insert_elems(x: (Seq<u8>, u32), s: Seq<(Seq<u8>, u32)>, lo: int, hi: int)
    requires
        1 <= lo,
        lo <= x.0.len() <= hi,
        forall|k: int| 0 <= k < s.len() ==> lo <= (#[trigger] s[k]).0.len() <= hi,
    ensures
        forall|k: int|
            0 <= k < insert_sorted(x, s).len() ==> lo <= (#[trigger] insert_sorted(x, s)[k]).0.len()
                <= hi,
    decreases s.len(),
{
    if s.len() == 0 {
    } else if pair_before(x, s[0]) {
    } else {
        assert forall|k: int| 0 <= k < s.skip(1).len() implies lo <= (
        #[trigger] s.skip(1)[k]).0.len() <= hi by {
            assert(s.skip(1)[k] == s[k + 1]);
        }
        lemma_insert_elems(x, s.skip(1), lo, hi);
        assert forall|k: int|
            0 <= k < insert_sorted(x, s).len() implies lo <= (
        #[trigger] insert_sorted(x, s)[k]).0.len() <= hi by {
            if k > 0 {
                assert(insert_sorted(x, s)[k] == insert_sorted(x, s.skip(1))[k - 1]);
            }
        }
    }
}

proof fn lemma_fold_insert_elems(s: Seq<(Seq<u8>, u32)>, k: int, lo: int, hi: int)
    requires
        1 <= lo,
        k <= s.len(),
        forall|m: int| 0 <= m < s.len() ==> lo <= (#[trigger] s[m]).0.len() <= hi,
    ensures
        forall|m: int|
            0 <= m < fold_insert(s, k).len() ==> lo <= (#[trigger] fold_insert(s, k)[m]).0.len()
                <= hi,
    decreases k,
{
    if k > 0 {
        lemma_fold_insert_elems(s, k - 1, lo, hi);
        lemma_insert_elems(s[k - 1], fold_insert(s, k - 1), lo, hi);
    }
}

impl Preprocessor {
    /// Picks the pattern length cap from the number of distinct byte values:
    /// 2 for a narrow alphabet, 3 for a moderate one, else 4.
    pub fn determine_max_pattern_length(&self, data: &[u8]) -> (r: usize)
        ensures
            r as int == spec_max_len(data@),
            2 <= r <= 4,
    {
        broadcast use vstd::set::group_set_axioms, vstd::seq_lib::seq_to_set_is_finite;

        let n = data.len();
        let mut flags: Vec<bool> = vec![false; 256];
        let mut distinct: usize = 0;
        let mut i: usize = 0;
        proof {
            assert(data@.take(0).to_set() =~= Set::<u8>::empty());
        }
        while i < n
            invariant
                n == data@.len(),
                i <= n,
                flags@.len() == 256,
                forall|v: u8| #[trigger] flags@[v as int] == data@.take(i as int).to_set().contains(
                    v,
                ),
                distinct == data@.take(i as int).to_set().len(),
                distinct <= i,
            decreases n - i,
        {
            let b = data[i];
            proof {
                broadcast use vstd::set::group_set_axioms, vstd::seq_lib::seq_to_set_is_finite;

                let s_new = data@.take(i + 1).to_set();
                let s_ins = data@.take(i as int).to_set().insert(b);
                assert forall|x: u8| s_new.contains(x) implies s_ins.contains(x) by {
                    assert(data@.take(i + 1).contains(x));
                    let q = choose|q: int|
                        0 <= q < i + 1 && (#[trigger] data@.take(i + 1)[q]) == x;
                    if q < i {
                        assert(data@.take(i as int)[q] == x);
                        assert(data@.take(i as int).contains(x));
                    } else {
                        assert(x == b);
                    }
                }
                assert forall|x: u8| s_ins.contains(x) implies s_new.contains(x) by {
                    if x == b {
                        assert(data@.take(i + 1)[i as int] == x);
                        assert(data@.take(i + 1).contains(x));
                    } else {
                        assert(data@.take(i as int).contains(x));
                        let q = choose|q: int|
                            0 <= q < i && (#[trigger] data@.take(i as int)[q]) == x;
                        assert(data@.take(i + 1)[q] == x);
                        assert(data@.take(i + 1).contains(x));
                    }
                }
                assert(s_new =~= s_ins);
                data@.take(i + 1).lemma_cardinality_of_set();
            }
            if !flags[b as usize] {
                flags[b as usize] = true;
                distinct += 1;
                proof {
                    broadcast use vstd::set::group_set_axioms, vstd::seq_lib::seq_to_set_is_finite;

                    assert(!data@.take(i as int).to_set().contains(b));
                }
            } else {
                proof {
                    broadcast use vstd::set::group_set_axioms, vstd::seq_lib::seq_to_set_is_finite;

                    assert(data@.take(i as int).to_set().contains(b));
                    assert(data@.take(i as int).to_set().insert(b) =~= data@.take(
                        i as int,
                    ).to_set());
                }
            }
            i += 1;
        }
        proof {
            assert(data@.take(n as int) =~= data@);
        }
        if distinct <= 16 {
            2
        } else if distinct <= 32 {
            3
        } else {
            4
        }
    }

    /// Counts every window of length 1 through the cap, keeps those seen
    /// more than once, sorts them by frequency descending with ties broken
    /// by ascending byte order, and assigns sequential codes to the top 254.
    fn identify_patterns(&mut self, data: &[u8])
        requires
            data@.len() <= MAX_INPUT_LEN,
            2 <= old(self).max_pattern_length <= 4,
        ensures
            final(self).wf(),
            final(self).max_pattern_length == old(self).max_pattern_length,
            final(self).pats() == spec_disc_pats(data@, old(self).max_pattern_length as int),
            final(self).freqs() == spec_disc_freqs(data@, old(self).max_pattern_length as int),
    {
        let maxl = self.max_pattern_length;
        let n = data.len();
        let ghost flat = windows_from(data@, 1, maxl as int);
        let mut cand_pats: Vec<Vec<u8>> = Vec::new();
        let mut cand_counts: Vec<u32> = Vec::new();
        let ghost mut seen = Seq::<Seq<u8>>::empty();
        let mut size: usize = 1;
        proof {
            assert(seen + windows_from(data@, 1, maxl as int) =~= flat);
            assert(pats_view(cand_pats@) =~= dedup(seen));
            lemma_windows_from_len(data@, 1, maxl as int);
            assert(flat.len() <= 4 * n) by (nonlinear_arith)
                requires
                    flat.len() <= maxl * n || flat.len() == 0,
                    2 <= maxl <= 4,
                    n >= 0,
            ;
        }
        while size <= maxl
            invariant
                n == data@.len(),
                n <= MAX_INPUT_LEN,
                2 <= maxl <= 4,
                1 <= size <= maxl + 1,
                flat == windows_from(data@, 1, maxl as int),
                flat.len() <= 4 * n,
                flat == seen + windows_from(data@, size as int, maxl as int),
                cand_pats@.len() == cand_counts@.len(),
                pats_view(cand_pats@) == dedup(seen),
                forall|k: int|
                    0 <= k < cand_counts@.len() ==> #[trigger] cand_counts@[k] == count_in(
                        seen,
                        dedup(seen)[k],
                    ),
            decreases maxl + 1 - size,
        {
            let mut pos: usize = 0;
            proof {
                assert(windows_from(data@, size as int, maxl as int) == windows_of_size(
                    data@,
                    size as int,
                    0,
                ) + windows_from(data@, size + 1, maxl as int));
                assert(seen + (windows_of_size(data@, size as int, 0) + windows_from(
                    data@,
                    size + 1,
                    maxl as int,
                )) =~= (seen + windows_of_size(data@, size as int, 0)) + windows_from(
                    data@,
                    size + 1,
                    maxl as int,
                ));
            }
            while pos + size <= n
                invariant
                    n == data@.len(),
                    n <= MAX_INPUT_LEN,
                    2 <= maxl <= 4,
                    1 <= size <= maxl,
                    pos <= n,
                    flat == windows_from(data@, 1, maxl as int),
                    flat.len() <= 4 * n,
                    flat == (seen + windows_of_size(data@, size as int, pos as int))
                        + windows_from(data@, size + 1, maxl as int),
                    cand_pats@.len() == cand_counts@.len(),
                    pats_view(cand_pats@) == dedup(seen),
                    forall|k: int|
                        0 <= k < cand_counts@.len() ==> #[trigger] cand_counts@[k] == count_in(
                            seen,
                            dedup(seen)[k],
                        ),
                decreases n - pos,
            {
                let w = copy_range(data, pos, pos + size);
                let ghost window = data@.subrange(pos as int, pos + size);
                let ghost seen0 = seen;
                proof {
                    assert(windows_of_size(data@, size as int, pos as int) == seq![window]
                        + windows_of_size(data@, size as int, pos + 1));
                    assert((seen0 + windows_of_size(data@, size as int, pos as int)) =~= (
                    seen0.push(window) + windows_of_size(data@, size as int, pos + 1)));
                    lemma_dedup_props(seen0);
                    assert(seen0.push(window).drop_last() =~= seen0);
                    assert(seen0.push(window).last() == window);
                    lemma_count_in_le(seen0, window);
                    assert(seen0.len() < flat.len());
                    assert(flat.len() <= 4 * MAX_INPUT_LEN);
                }
                match find_pattern_index(&cand_pats, &w) {
                    Some(m) => {
                        proof {
                            assert(pats_view(cand_pats@)[m as int] == window);
                            assert(dedup(seen0).contains(window));
                            assert(dedup(seen0.push(window)) == dedup(seen0));
                        }
                        let c = cand_counts[m];
                        proof {
                            assert(c == count_in(seen0, window));
                            assert(count_in(seen0, window) <= seen0.len());
                        }
                        cand_counts[m] = c + 1;
                        proof {
                            seen = seen0.push(window);
                            assert forall|k: int|
                                0 <= k < cand_counts@.len() implies #[trigger] cand_counts@[k]
                                == count_in(seen, dedup(seen)[k]) by {
                                if k != m {
                                    assert(dedup(seen)[k] != window);
                                    assert(count_in(seen, dedup(seen)[k]) == count_in(
                                        seen0,
                                        dedup(seen0)[k],
                                    ));
                                }
                            }
                        }
                    },
                    None => {
                        proof {
                            assert forall|q: int|
                                0 <= q < dedup(seen0).len() implies dedup(seen0)[q]
                                != window by {
                                assert(pats_view(cand_pats@)[q] == cand_pats@[q]@);
                            }
                            assert(!dedup(seen0).contains(window));
                            assert(dedup(seen0.push(window)) == dedup(seen0).push(window));
                            lemma_count_in_le(seen0, window);
                            assert(!seen0.contains(window));
                            assert(count_in(seen0, window) == 0);
                        }
                        cand_pats.push(w);
                        cand_counts.push(1);
                        proof {
                            seen = seen0.push(window);
                            assert(pats_view(cand_pats@) =~= dedup(seen));
                            assert forall|k: int|
                                0 <= k < cand_counts@.len() implies #[trigger] cand_counts@[k]
                                == count_in(seen, dedup(seen)[k]) by {
                                if k < cand_counts@.len() - 1 {
                                    assert(dedup(seen0).contains(dedup(seen0)[k]));
                                    assert(dedup(seen)[k] == dedup(seen0)[k]);
                                    assert(dedup(seen0)[k] != window);
                                    assert(count_in(seen, dedup(seen)[k]) == count_in(
                                        seen0,
                                        dedup(seen0)[k],
                                    ));
                                } else {
                                    assert(dedup(seen)[k] == window);
                                    assert(count_in(seen, window) == 1);
                                }
                            }
                        }
                    },
                }
                pos += 1;
            }
            proof {
                assert(windows_of_size(data@, size as int, pos as int) =~= Seq::<Seq<u8>>::empty());
                assert((seen + windows_of_size(data@, size as int, pos as int)) =~= seen);
            }
            size += 1;
        }
        proof {
            assert(windows_from(data@, size as int, maxl as int) =~= Seq::<Seq<u8>>::empty());
            assert(seen + windows_from(data@, size as int, maxl as int) =~= seen);
            assert(seen == flat);
            assert(zip_pairs(cand_pats@, cand_counts@) =~= spec_candidates(data@, maxl as int));
        }
        let ghost cands = spec_candidates(data@, maxl as int);
        let mut surv_pats: Vec<Vec<u8>> = Vec::new();
        let mut surv_counts: Vec<u32> = Vec::new();
        let mut j: usize = 0;
        proof {
            assert(cands.take(0) =~= Seq::<(Seq<u8>, u32)>::empty());
            assert(zip_pairs(surv_pats@, surv_counts@) =~= filter_pairs(cands.take(0)));
        }
        while j < cand_pats.len()
            invariant
                cands == spec_candidates(data@, maxl as int),
                cands == zip_pairs(cand_pats@, cand_counts@),
                cand_pats@.len() == cand_counts@.len(),
                j <= cand_pats@.len(),
                surv_pats@.len() == surv_counts@.len(),
                zip_pairs(surv_pats@, surv_counts@) == filter_pairs(cands.take(j as int)),
            decreases cand_pats@.len() - j,
        {
            proof {
                assert(cands.take(j + 1).drop_last() =~= cands.take(j as int));
                assert(cands.take(j + 1).last() == cands[j as int]);
            }
            if cand_counts[j] > 1 {
                let p = crate::bitpack::clone_bytes(&cand_pats[j]);
                surv_pats.push(p);
                surv_counts.push(cand_counts[j]);
                proof {
                    assert(zip_pairs(surv_pats@, surv_counts@) =~= filter_pairs(cands.take(j + 1)));
                }
            } else {
                proof {
                    assert(zip_pairs(surv_pats@, surv_counts@) =~= filter_pairs(cands.take(j + 1)));
                }
            }
            j += 1;
        }
        proof {
            assert(cands.take(cands.len() as int) =~= cands);
        }
        let ghost survivors = filter_pairs(cands);
        let mut sorted_pats: Vec<Vec<u8>> = Vec::new();
        let mut sorted_counts: Vec<u32> = Vec::new();
        let mut i: usize = 0;
        proof {
            assert(zip_pairs(sorted_pats@, sorted_counts@) =~= fold_insert(survivors, 0));
        }
        while i < surv_pats.len()
            invariant
                survivors == filter_pairs(spec_candidates(data@, maxl as int)),
                survivors == zip_pairs(surv_pats@, surv_counts@),
                surv_pats@.len() == surv_counts@.len(),
                i <= surv_pats@.len(),
                sorted_pats@.len() == sorted_counts@.len(),
                sorted_pats@.len() == i,
                zip_pairs(sorted_pats@, sorted_counts@) == fold_insert(survivors, i as int),
            decreases surv_pats@.len() - i,
        {
            let xp = crate::bitpack::clone_bytes(&surv_pats[i]);
            let xc = surv_counts[i];
            let ghost x = (xp@, xc);
            let ghost acc = zip_pairs(sorted_pats@, sorted_counts@);
            let mut pos: usize = 0;
            while pos < sorted_pats.len() && !pair_before_exec(
                &xp,
                xc,
                &sorted_pats[pos],
                sorted_counts[pos],
            )
                invariant
                    x == (xp@, xc),
                    acc == zip_pairs(sorted_pats@, sorted_counts@),
                    sorted_pats@.len() == sorted_counts@.len(),
                    pos <= sorted_pats@.len(),
                    forall|k: int| 0 <= k < pos ==> !pair_before(x, #[trigger] acc[k]),
                decreases sorted_pats@.len() - pos,
            {
                pos += 1;
            }
            proof {
                assert(pos < sorted_pats@.len() ==> pair_before(x, acc[pos as int]));
                lemma_insert_at(x, acc, pos as int);
            }
            sorted_pats.insert(pos, xp);
            sorted_counts.insert(pos, xc);
            proof {
                assert(survivors[i as int] == x);
                assert(zip_pairs(sorted_pats@, sorted_counts@) =~= acc.take(pos as int) + seq![x]
                    + acc.skip(pos as int));
                assert(zip_pairs(sorted_pats@, sorted_counts@) =~= insert_sorted(x, acc));
            }
            i += 1;
        }
        let ghost sorted_all = fold_insert(survivors, survivors.len() as int);
        if sorted_pats.len() > 254 {
            sorted_pats.truncate(254);
            sorted_counts.truncate(254);
        }
        proof {
            assert(zip_pairs(sorted_pats@, sorted_counts@) =~= spec_discovered(
                data@,
                maxl as int,
            ));
        }
        self.patterns = sorted_pats;
        self.code_frequencies = sorted_counts;
        proof {
            let d = spec_discovered(data@, maxl as int);
            assert(self.pats() =~= spec_disc_pats(data@, maxl as int));
            assert(self.freqs() =~= spec_disc_freqs(data@, maxl as int));
            lemma_dedup_props(flat);
            lemma_windows_from_len(data@, 1, maxl as int);
            assert forall|k: int| 0 <= k < cands.len() implies 1 <= (#[trigger] cands[k]).0.len()
                <= 4 by {
                assert(dedup(flat).contains(dedup(flat)[k]));
                assert(flat.contains(dedup(flat)[k]));
                let q = choose|q: int| 0 <= q < flat.len() && flat[q] == dedup(flat)[k];
                assert(1 <= flat[q].len() <= maxl);
            }
            assert forall|k: int| 0 <= k < survivors.len() implies 1 <= (
            #[trigger] survivors[k]).0.len() <= 4 by {
                lemma_filter_elems(cands, k);
            }
            lemma_fold_insert_elems(survivors, survivors.len() as int, 1, 4);
            assert forall|k: int| 0 <= k < self.pats().len() implies 1 <= (
            #[trigger] self.pats()[k]).len() <= 255 by {
                assert(self.pats()[k] == d[k].0);
                assert(d[k] == sorted_all[k]);
            }
        }
    }

    /// Discovers the pattern table for a buffer and transforms it: the
    /// length cap is set from the alphabet, patterns are discovered and
    /// coded, and the buffer is substituted and re-encoded.
    pub fn preprocess(&mut self, data: &[u8]) -> (r: Vec<u8>)
        requires
            data@.len() <= MAX_INPUT_LEN,
        ensures
            final(self).wf(),
            final(self).max_pattern_length as int == spec_max_len(data@),
            final(self).pats() == spec_disc_pats(data@, spec_max_len(data@)),
            final(self).freqs() == spec_disc_freqs(data@, spec_max_len(data@)),
            r@ == spec_preprocess(data@),
    {
        let m = self.determine_max_pattern_length(data);
        self.max_pattern_length = m;
        self.identify_patterns(data);
        self.transform_data(data)
    }
}

proof fn lemma_filter_elems(ps: Seq<(Seq<u8>, u32)>, k: int)
    requires
        0 <= k < filter_pairs(ps).len(),
    ensures
        exists|q: int| 0 <= q < ps.len() && ps[q] == filter_pairs(ps)[k],
    decreases ps.len(),
{
    if ps.len() > 0 {
        if k < filter_pairs(ps.drop_last()).len() {
            lemma_filter_elems(ps.drop_last(), k);
            let q = choose|q: int|
                0 <= q < ps.drop_last().len() && ps.drop_last()[q] == filter_pairs(
                    ps.drop_last(),
                )[k];
            assert(ps[q] == filter_pairs(ps)[k]);
        } else {
            assert(ps[ps.len() - 1] == filter_pairs(ps)[k]);
        }
    }
}

/// Deserializing a serialized pattern table restores it exactly.
pub proof fn lemma_pat_table_round_trip(pats: Seq<Seq<u8>>)
    requires
        pats.len() <= 254,
        forall|k: int| 0 <= k < pats.len() ==> 1 <= (#[trigger] pats[k]).len() <= 255,
    ensures
        spec_deser_pat(spec_ser_pat(pats)) == Option::Some(pats),
{
    lemma_pat_rt_rec(pats, 0);
    assert(pats.skip(0) =~= pats);
}

proof fn lemma_pat_rt_rec(pats: Seq<Seq<u8>>, k: int)
    requires
        pats.len() <= 254,
        forall|m: int| 0 <= m < pats.len() ==> 1 <= (#[trigger] pats[m]).len() <= 255,
        0 <= k <= pats.len(),
    ensures
        spec_deser_pat_rec(spec_ser_pat_from(pats, k), k) == Option::Some(pats.skip(k)),
    decreases pats.len() - k,
{
    if k >= pats.len() {
        assert(spec_ser_pat_from(pats, k) =~= Seq::<u8>::empty());
        assert(pats.skip(k) =~= Seq::<Seq<u8>>::empty());
    } else {
        let plen = pats[k].len() as int;
        let rec = spec_pat_record(pats, k);
        let rest = spec_ser_pat_from(pats, k + 1);
        let s = spec_ser_pat_from(pats, k);
        assert(s == rec + rest);
        assert(1 <= plen <= 255);
        assert(rec.len() == 3 + plen);
        assert(((k + 1) / 256) % 256 == 0);
        assert(s[0] == 0);
        assert(s[1] == ((k + 1) % 256) as u8);
        assert((k + 1) % 256 == k + 1);
        assert(s[2] == pats[k].len() as u8);
        assert((s[0] as int) * 256 + (s[1] as int) == k + 1);
        assert(s[2] as int == plen);
        assert(s.len() >= 3 + plen);
        assert forall|j: int| 0 <= j < plen implies s.subrange(3, 3 + plen)[j] == pats[k][j] by {
            assert(s[3 + j] == rec[3 + j]);
            assert(rec[3 + j] == pats[k][j]);
        }
        assert(s.subrange(3, 3 + plen) =~= pats[k]);
        assert(s.skip(3 + plen) =~= rest);
        lemma_pat_rt_rec(pats, k + 1);
        assert(spec_deser_pat_rec(s, k) == Option::Some(
            seq![pats[k]] + pats.skip(k + 1),
        ));
        assert(seq![pats[k]] + pats.skip(k + 1) =~= pats.skip(k));
    }
}

/// The discovered table always fits the code byte and the record format:
/// at most 254 patterns, each of length 1 through the cap.
pub proof fn lemma_disc_pats_wf(data: Seq<u8>, max: int)
    requires
        1 <= max <= 4,
    ensures
        spec_disc_pats(data, max).len() <= 254,
        spec_disc_freqs(data, max).len() == spec_disc_pats(data, max).len(),
        forall|k: int|
            0 <= k < spec_disc_pats(data, max).len() ==> 1 <= (
            #[trigger] spec_disc_pats(data, max)[k]).len() <= 255,
{
    let flat = windows_from(data, 1, max);
    let cands = spec_candidates(data, max);
    let survivors = filter_pairs(cands);
    let sorted_all = fold_insert(survivors, survivors.len() as int);
    let d = spec_discovered(data, max);
    lemma_dedup_props(flat);
    lemma_windows_from_len(data, 1, max);
    assert forall|k: int| 0 <= k < cands.len() implies 1 <= (#[trigger] cands[k]).0.len()
        <= 4 by {
        assert(dedup(flat).contains(dedup(flat)[k]));
        assert(flat.contains(dedup(flat)[k]));
        let q = choose|q: int| 0 <= q < flat.len() && flat[q] == dedup(flat)[k];
        assert(1 <= flat[q].len() <= max);
    }
    assert forall|k: int| 0 <= k < survivors.len() implies 1 <= (
    #[trigger] survivors[k]).0.len() <= 4 by {
        lemma_filter_elems(cands, k);
    }
    lemma_fold_insert_elems(survivors, survivors.len() as int, 1, 4);
    assert forall|k: int| 0 <= k < spec_disc_pats(data, max).len() implies 1 <= (
    #[trigger] spec_disc_pats(data, max)[k]).len() <= 255 by {
        assert(spec_disc_pats(data, max)[k] == d[k].0);
        assert(d[k] == sorted_all[k]);
    }
}

/// Inverting the forward pass: the reverse pass undoes the substitution
/// and re-encoding exactly, on every buffer. Each emitted unit is decoded
/// unambiguously: a bare byte in code range only ever stands for a code,
/// and a literal that would collide with the code channel travels behind
/// the escape marker and the reserved code zero.
pub proof fn lemma_reverse_preprocess(
    pats: Seq<Seq<u8>>,
    freqs: Seq<u32>,
    max_len: int,
    data: Seq<u8>,
    i: int,
)
    requires
        pats.len() <= 254,
        0 <= i <= data.len(),
    ensures
        spec_reverse(pats, spec_transform(pats, freqs, max_len, data, i)) == Option::Some(
            data.skip(i),
        ),
    decreases data.len() - i,
{
    if i >= data.len() {
        assert(spec_transform(pats, freqs, max_len, data, i) =~= Seq::<u8>::empty());
        assert(data.skip(i) =~= Seq::<u8>::empty());
    } else {
        let limit = if max_len <= data.len() - i {
            max_len
        } else {
            data.len() - i
        };
        lemma_find_match_props(pats, data, i, limit);
        match spec_find_match(pats, data, i, limit) {
            Option::Some(m) => {
                let c = m.0;
                let sz = m.1;
                let cb = c as u8;
                lemma_find_code_props(pats, data.subrange(i, i + sz));
                assert(1 <= c <= 254);
                assert(cb as int == c);
                assert(pats[c - 1] == data.subrange(i, i + sz));
                let t1 = spec_transform(pats, freqs, max_len, data, i + sz);
                assert(spec_transform(pats, freqs, max_len, data, i) == seq![cb] + t1);
                lemma_reverse_preprocess(pats, freqs, max_len, data, i + sz);
                let full = spec_transform(pats, freqs, max_len, data, i);
                assert(full[0] == cb);
                assert(cb != 255);
                assert(full.skip(1) =~= t1);
                assert(code_pattern(pats, cb) == Option::Some(pats[c - 1]));
                assert(spec_reverse(pats, full) == Option::Some(
                    pats[c - 1] + data.skip(i + sz),
                ));
                assert(pats[c - 1] + data.skip(i + sz) =~= data.skip(i));
            },
            Option::None => {
                let b = data[i];
                let t1 = spec_transform(pats, freqs, max_len, data, i + 1);
                assert(spec_transform(pats, freqs, max_len, data, i) == spec_literal_unit(
                    pats,
                    freqs,
                    b,
                ) + t1);
                lemma_reverse_preprocess(pats, freqs, max_len, data, i + 1);
                let full = spec_transform(pats, freqs, max_len, data, i);
                lemma_find_code_props(pats, seq![b]);
                match find_code(pats, seq![b]) {
                    Option::Some(cb) => {
                        assert(1 <= cb <= 254);
                        assert(pats[cb - 1] == seq![b]);
                        let cbu = cb as u8;
                        assert((cb as u16) as u8 == cbu);
                        assert(code_pattern(pats, cbu) == Option::Some(pats[cb - 1]));
                        if freqs[cb - 1] > 100 {
                            assert(spec_literal_unit(pats, freqs, b) == seq![cbu]);
                            assert(full =~= seq![cbu] + t1);
                            assert(full[0] == cbu);
                            assert(cbu != 255);
                            assert(full.skip(1) =~= t1);
                            assert(spec_reverse(pats, full) == Option::Some(
                                seq![b] + data.skip(i + 1),
                            ));
                        } else {
                            assert(spec_literal_unit(pats, freqs, b) == seq![255u8, cbu]);
                            assert(full =~= seq![255u8, cbu] + t1);
                            assert(full[0] == 255);
                            assert(full.len() >= 2);
                            assert(full[1] == cbu);
                            assert(cbu != 0);
                            assert(full.skip(2) =~= t1);
                            assert(spec_reverse(pats, full) == Option::Some(
                                seq![b] + data.skip(i + 1),
                            ));
                        }
                        assert(seq![b] + data.skip(i + 1) =~= data.skip(i));
                    },
                    Option::None => {
                        if b == 255 || (1 <= b && (b as int) <= pats.len()) {
                            assert(spec_literal_unit(pats, freqs, b) == seq![255u8, 0u8, b]);
                            assert(full =~= seq![255u8, 0u8, b] + t1);
                            assert(full[0] == 255);
                            assert(full.len() >= 3);
                            assert(full[1] == 0);
                            assert(full[2] == b);
                            assert(full.skip(3) =~= t1);
                            assert(spec_reverse(pats, full) == Option::Some(
                                seq![b] + data.skip(i + 1),
                            ));
                        } else {
                            assert(spec_literal_unit(pats, freqs, b) == seq![b]);
                            assert(full =~= seq![b] + t1);
                            assert(full[0] == b);
                            assert(b != 255);
                            assert(code_pattern(pats, b) is None);
                            assert(full.skip(1) =~= t1);
                            assert(spec_reverse(pats, full) == Option::Some(
                                seq![b] + data.skip(i + 1),
                            ));
                        }
                        assert(seq![b] + data.skip(i + 1) =~= data.skip(i));
                    },
                }
            },
        }
    }
}

/// The transform applied chunk by chunk: each chunk is substituted and
/// re-encoded on its own, and the outputs are joined in chunk order. A match
/// that would straddle a chunk boundary is never found, so this can differ
/// from the whole-buffer pass near boundaries.
pub open spec fn spec_chunked_transform(
    pats: Seq<Seq<u8>>,
    freqs: Seq<u32>,
    max_len: int,
    data: Seq<u8>,
    csize: int,
    i: int,
) -> Seq<u8>
    decreases data.len() + csize - i,
{
    if csize < 1 || i < 0 || i >= data.len() {
        Seq::empty()
    } else {
        let end = if i + csize <= data.len() {
            i + csize
        } else {
            data.len() as int
        };
        spec_preprocessed(pats, freqs, max_len, data.subrange(i, end))
            + spec_chunked_transform(pats, freqs, max_len, data, csize, i + csize)
    }
}

/// The chunk width used by the chunked pass: an even split, but never below
/// the pattern length cap.
pub open spec fn spec_chunk_size(len: int, num_chunks: int, max_len: int) -> int {
    if len / num_chunks >= max_len {
        len / num_chunks
    } else {
        max_len
    }
}

pub open spec fn chunk_end(j: int, csize: int, len: int) -> int {
    if j + csize <= len {
        j + csize
    } else {
        len
    }
}

/// Whether the whole-buffer greedy pass, started at `j`, steps through
/// positions that stay inside `[j, e)` and land exactly on `e`: no match
/// may straddle `e`.
pub open spec fn chunk_clean(pats: Seq<Seq<u8>>, max_len: int, data: Seq<u8>, j: int, e: int) -> bool
    decreases e - j,
    via chunk_clean_decreases
{
    if j < 0 || j >= e || e > data.len() {
        j == e
    } else {
        let limit = if max_len <= data.len() - j {
            max_len
        } else {
            data.len() - j
        };
        match spec_find_match(pats, data, j, limit) {
            Option::Some(m) => if j + m.1 > e {
                false
            } else {
                chunk_clean(pats, max_len, data, j + m.1, e)
            },
            Option::None => chunk_clean(pats, max_len, data, j + 1, e),
        }
    }
}

#[via_fn]
proof fn chunk_clean_decreases(pats: Seq<Seq<u8>>, max_len: int, data: Seq<u8>, j: int, e: int) {
    if !(j < 0 || j >= e || e > data.len()) {
        let limit = if max_len <= data.len() - j {
            max_len
        } else {
            data.len() - j
        };
        lemma_find_match_props(pats, data, j, limit);
    }
}

/// Whether every match of the whole-buffer pass lies inside one chunk of
/// width `csize`, from chunk start `i` on.
pub open spec fn chunks_aligned(
    pats: Seq<Seq<u8>>,
    max_len: int,
    data: Seq<u8>,
    csize: int,
    i: int,
) -> bool
    decreases data.len() + csize - i,
{
    if csize < 1 || i < 0 || i >= data.len() {
        true
    } else {
        chunk_clean(pats, max_len, data, i, chunk_end(i, csize, data.len() as int)) && chunks_aligned(
            pats,
            max_len,
            data,
            csize,
            i + csize,
        )
    }
}

proof fn lemma_find_match_restrict(pats: Seq<Seq<u8>>, data: Seq<u8>, j: int, l1: int, l2: int)
    requires
        l1 <= l2,
    ensures
        match spec_find_match(pats, data, j, l2) {
            Option::Some(m) => m.1 <= l1 ==> spec_find_match(pats, data, j, l1) == Option::Some(m),
            Option::None => spec_find_match(pats, data, j, l1) is None,
        },
    decreases l2 - l1,
{
    if l1 < l2 {
        if l2 >= 2 && j + l2 <= data.len() && find_code(pats, data.subrange(j, j + l2)) is Some {
        } else {
            lemma_find_match_restrict(pats, data, j, l1, l2 - 1);
        }
    }
}

proof fn lemma_find_match_shift(
    pats: Seq<Seq<u8>>,
    data: Seq<u8>,
    a: int,
    e: int,
    j: int,
    size: int,
)
    requires
        0 <= a <= j <= e <= data.len(),
        size <= e - j,
    ensures
        spec_find_match(pats, data.subrange(a, e), j - a, size) == spec_find_match(
            pats,
            data,
            j,
            size,
        ),
    decreases size,
{
    if size >= 2 {
        assert(data.subrange(a, e).subrange(j - a, j - a + size) =~= data.subrange(j, j + size));
        lemma_find_match_shift(pats, data, a, e, j, size - 1);
    }
}

/// On a clean stretch `[j, e)`, the whole-buffer pass factors through the
/// pass over the stretch alone.
proof fn lemma_chunk_prefix(
    pats: Seq<Seq<u8>>,
    freqs: Seq<u32>,
    max_len: int,
    data: Seq<u8>,
    a: int,
    e: int,
    j: int,
)
    requires
        0 <= a <= j <= e <= data.len(),
        chunk_clean(pats, max_len, data, j, e),
    ensures
        spec_transform(pats, freqs, max_len, data, j) == spec_transform(
            pats,
            freqs,
            max_len,
            data.subrange(a, e),
            j - a,
        ) + spec_transform(pats, freqs, max_len, data, e),
    decreases e - j,
{
    let chunk = data.subrange(a, e);
    if j >= e {
        assert(spec_transform(pats, freqs, max_len, chunk, j - a) =~= Seq::<u8>::empty());
        assert(Seq::<u8>::empty() + spec_transform(pats, freqs, max_len, data, e)
            =~= spec_transform(pats, freqs, max_len, data, e));
    } else {
        let limit_w = if max_len <= data.len() - j {
            max_len
        } else {
            data.len() - j
        };
        let limit_c = if max_len <= chunk.len() - (j - a) {
            max_len
        } else {
            chunk.len() - (j - a)
        };
        assert(limit_c <= limit_w);
        assert(limit_c == if max_len <= e - j {
            max_len
        } else {
            e - j
        });
        lemma_find_match_props(pats, data, j, limit_w);
        match spec_find_match(pats, data, j, limit_w) {
            Option::Some(m) => {
                assert(j + m.1 <= e);
                assert(m.1 <= limit_c);
                lemma_find_match_restrict(pats, data, j, limit_c, limit_w);
                assert(spec_find_match(pats, data, j, limit_c) == Option::Some(m));
                lemma_find_match_shift(pats, data, a, e, j, limit_c);
                assert(spec_find_match(pats, chunk, j - a, limit_c) == Option::Some(m));
                lemma_chunk_prefix(pats, freqs, max_len, data, a, e, j + m.1);
                assert(spec_transform(pats, freqs, max_len, data, j) == seq![m.0 as u8]
                    + spec_transform(pats, freqs, max_len, data, j + m.1));
                assert(spec_transform(pats, freqs, max_len, chunk, j - a) == seq![m.0 as u8]
                    + spec_transform(pats, freqs, max_len, chunk, j - a + m.1));
                assert(seq![m.0 as u8] + (spec_transform(pats, freqs, max_len, chunk, j - a + m.1)
                    + spec_transform(pats, freqs, max_len, data, e)) =~= (seq![m.0 as u8]
                    + spec_transform(pats, freqs, max_len, chunk, j - a + m.1)) + spec_transform(
                    pats,
                    freqs,
                    max_len,
                    data,
                    e,
                ));
            },
            Option::None => {
                lemma_find_match_restrict(pats, data, j, limit_c, limit_w);
                lemma_find_match_shift(pats, data, a, e, j, limit_c);
                assert(spec_find_match(pats, chunk, j - a, limit_c) is None);
                lemma_chunk_prefix(pats, freqs, max_len, data, a, e, j + 1);
                assert(chunk[j - a] == data[j]);
                let u = spec_literal_unit(pats, freqs, data[j]);
                assert(spec_transform(pats, freqs, max_len, data, j) == u + spec_transform(
                    pats,
                    freqs,
                    max_len,
                    data,
                    j + 1,
                ));
                assert(spec_transform(pats, freqs, max_len, chunk, j - a) == u + spec_transform(
                    pats,
                    freqs,
                    max_len,
                    chunk,
                    j - a + 1,
                ));
                assert(u + (spec_transform(pats, freqs, max_len, chunk, j - a + 1)
                    + spec_transform(pats, freqs, max_len, data, e)) =~= (u + spec_transform(
                    pats,
                    freqs,
                    max_len,
                    chunk,
                    j - a + 1,
                )) + spec_transform(pats, freqs, max_len, data, e));
            },
        }
    }
}

/// Boundary law for the chunked pass: it can differ from the whole-buffer
/// pass only where a match would have straddled a chunk boundary. When no
/// match of the whole-buffer pass crosses a boundary, the two passes agree
/// byte for byte.
pub proof fn lemma_parallel_matches_sequential(
    pats: Seq<Seq<u8>>,
    freqs: Seq<u32>,
    max_len: int,
    data: Seq<u8>,
    csize: int,
)
    requires
        csize >= 1,
        chunks_aligned(pats, max_len, data, csize, 0),
    ensures
        spec_chunked_transform(pats, freqs, max_len, data, csize, 0) == spec_preprocessed(
            pats,
            freqs,
            max_len,
            data,
        ),
{
    lemma_chunked_eq(pats, freqs, max_len, data, csize, 0);
}

proof fn lemma_chunked_eq(
    pats: Seq<Seq<u8>>,
    freqs: Seq<u32>,
    max_len: int,
    data: Seq<u8>,
    csize: int,
    i: int,
)
    requires
        csize >= 1,
        0 <= i,
        chunks_aligned(pats, max_len, data, csize, i),
    ensures
        spec_chunked_transform(pats, freqs, max_len, data, csize, i) == spec_transform(
            pats,
            freqs,
            max_len,
            data,
            i,
        ),
    decreases data.len() + csize - i,
{
    if i >= data.len() {
        assert(spec_transform(pats, freqs, max_len, data, i) =~= Seq::<u8>::empty());
    } else {
        let e = chunk_end(i, csize, data.len() as int);
        let chunk = data.subrange(i, e);
        lemma_chunk_prefix(pats, freqs, max_len, data, i, e, i);
        lemma_chunked_eq(pats, freqs, max_len, data, csize, i + csize);
        if i + csize >= data.len() {
            assert(spec_transform(pats, freqs, max_len, data, i + csize) =~= Seq::<u8>::empty());
            assert(e == data.len());
            assert(spec_transform(pats, freqs, max_len, data, e) =~= Seq::<u8>::empty());
            assert(spec_chunked_transform(pats, freqs, max_len, data, csize, i + csize) =~= Seq::<
                u8,
            >::empty());
            assert(spec_transform(pats, freqs, max_len, data, i) =~= spec_transform(
                pats,
                freqs,
                max_len,
                chunk,
                0,
            ) + Seq::<u8>::empty());
        } else {
            assert(e == i + csize);
        }
    }
}

impl Preprocessor {
    /// Splits the buffer into chunks and runs the substitution and
    /// re-encoding passes independently on each, joining the outputs in
    /// chunk order. The workers share only this read-only table, so the
    /// result is the same whatever order they run in; it may differ from
    /// `transform_data` where a match would have straddled a boundary.
    pub fn parallel_transform_data(&self, data: &[u8], num_chunks: usize) -> (r: Vec<u8>)
        requires
            self.wf(),
            num_chunks >= 1,
            data@.len() <= MAX_INPUT_LEN,
        ensures
            r@ == spec_chunked_transform(
                self.pats(),
                self.freqs(),
                self.max_pattern_length as int,
                data@,
                spec_chunk_size(data@.len() as int, num_chunks as int, self.max_pattern_length as int),
                0,
            ),
    {
        let n = data.len();
        let per = n / num_chunks;
        let csize = if per >= self.max_pattern_length {
            per
        } else {
            self.max_pattern_length
        };
        let ghost cs = spec_chunk_size(data@.len() as int, num_chunks as int, self.max_pattern_length as int);
        proof {
            assert(csize as int == cs);
        }
        let mut out: Vec<u8> = Vec::new();
        let mut i: usize = 0;
        proof {
            let t = spec_chunked_transform(
                self.pats(),
                self.freqs(),
                self.max_pattern_length as int,
                data@,
                cs,
                0,
            );
            assert(out@ + t =~= t);
        }
        while i < n
            invariant
                self.wf(),
                n == data@.len(),
                n <= MAX_INPUT_LEN,
                i <= n + csize,
                csize as int == cs,
                2 <= csize <= n + 4,
                spec_chunked_transform(
                    self.pats(),
                    self.freqs(),
                    self.max_pattern_length as int,
                    data@,
                    cs,
                    0,
                ) == out@ + spec_chunked_transform(
                    self.pats(),
                    self.freqs(),
                    self.max_pattern_length as int,
                    data@,
                    cs,
                    i as int,
                ),
            decreases n + csize - i,
        {
            let end = if i + csize <= n {
                i + csize
            } else {
                n
            };
            let chunk = copy_range(data, i, end);
            let piece = self.transform_data(chunk.as_slice());
            let ghost pre = out@;
            push_all(&mut out, &piece);
            proof {
                assert(chunk@ == data@.subrange(i as int, end as int));
                assert(spec_chunked_transform(
                    self.pats(),
                    self.freqs(),
                    self.max_pattern_length as int,
                    data@,
                    cs,
                    i as int,
                ) == piece@ + spec_chunked_transform(
                    self.pats(),
                    self.freqs(),
                    self.max_pattern_length as int,
                    data@,
                    cs,
                    i + cs,
                ));
                assert(pre + (piece@ + spec_chunked_transform(
                    self.pats(),
                    self.freqs(),
                    self.max_pattern_length as int,
                    data@,
                    cs,
                    i + cs,
                )) =~= out@ + spec_chunked_transform(
                    self.pats(),
                    self.freqs(),
                    self.max_pattern_length as int,
                    data@,
                    cs,
                    i + cs,
                ));
            }
            i += csize;
        }
        proof {
            assert(spec_chunked_transform(
                self.pats(),
                self.freqs(),
                self.max_pattern_length as int,
                data@,
                cs,
                i as int,
            ) =~= Seq::<u8>::empty());
            assert(out@ + Seq::<u8>::empty() =~= out@);
        }
        out
    }
}

} // verus!
