//! LZW dictionary coding over the 256-byte alphabet: the dictionary starts
//! with every single byte and grows by one entry — the rejected extension —
//! each time the current prefix can no longer be extended.

use vstd::prelude::*;

verus! {

/// The initial dictionary: one entry per byte value, in order.
pub open spec fn init_dict() -> Seq<Seq<u8>> {
    Seq::new(256, |i: int| seq![i as u8])
}

/// The least index at or after `k` whose entry equals `s`; the dictionary
/// length if there is none.
pub open spec fn first_entry_from(dict: Seq<Seq<u8>>, s: Seq<u8>, k: int) -> int
    decreases dict.len() - k,
{
    if k < 0 || k >= dict.len() {
        dict.len() as int
    } else if dict[k] == s {
        k
    } else {
        first_entry_from(dict, s, k + 1)
    }
}

/// The index of `s` in the dictionary, or its length if absent.
pub open spec fn dict_index(dict: Seq<Seq<u8>>, s: Seq<u8>) -> int {
    first_entry_from(dict, s, 0)
}

/// Whether the dictionary holds `s`.
pub open spec fn dict_has(dict: Seq<Seq<u8>>, s: Seq<u8>) -> bool {
    dict_index(dict, s) < dict.len()
}

proof fn lemma_first_entry_found(dict: Seq<Seq<u8>>, s: Seq<u8>, k: int, f: int)
    requires
        0 <= k <= f < dict.len(),
        dict[f] == s,
        forall|m: int| k <= m < f ==> dict[m] != s,
    ensures
        first_entry_from(dict, s, k) == f,
    decreases f - k,
{
    if k < f {
        lemma_first_entry_found(dict, s, k + 1, f);
    }
}

proof fn lemma_first_entry_absent(dict: Seq<Seq<u8>>, s: Seq<u8>, k: int)
    requires
        0 <= k <= dict.len(),
        forall|m: int| k <= m < dict.len() ==> dict[m] != s,
    ensures
        first_entry_from(dict, s, k) == dict.len(),
    decreases dict.len() - k,
{
    if k < dict.len() {
        lemma_first_entry_absent(dict, s, k + 1);
    }
}

/// The encoder's growing dictionary of byte strings.
pub struct Dictionary {
    entries: Vec<Vec<u8>>,
}

/// The entries as a sequence of byte sequences.
impl Dictionary {
    pub closed spec fn view_entries(&self) -> Seq<Seq<u8>> {
        Seq::new(self.entries@.len(), |i: int| self.entries@[i]@)
    }

    /// The dictionary holding exactly the 256 single-byte strings.
    pub fn new_root() -> (d: Dictionary)
        ensures
            d.view_entries() == init_dict(),
    {
        let mut entries: Vec<Vec<u8>> = Vec::new();
        let mut b: usize = 0;
        while b < 256
            invariant
                b <= 256,
                entries@.len() == b,
                forall|i: int| 0 <= i < b ==> #[trigger] entries@[i]@ == seq![i as u8],
            decreases 256 - b,
        {
            let mut e: Vec<u8> = Vec::new();
            e.push(b as u8);
            proof {
                assert(e@ =~= seq![b as u8]);
            }
            entries.push(e);
            b = b + 1;
        }
        let d = Dictionary { entries };
        proof {
            assert(d.view_entries() =~= init_dict());
        }
        d
    }

    /// Number of entries.
    pub fn len(&self) -> (n: usize)
        ensures
            n == self.view_entries().len(),
    {
        self.entries.len()
    }

    /// Append one entry.
    pub fn add(&mut self, entry: Vec<u8>)
        ensures
            final(self).view_entries() == old(self).view_entries().push(entry@),
    {
        self.entries.push(entry);
        proof {
            assert(self.view_entries() =~= old(self).view_entries().push(entry@));
        }
    }

    /// The least index whose entry equals `s`, or the length if none does.
    pub fn find(&self, s: &Vec<u8>) -> (i: usize)
        ensures
            i == dict_index(self.view_entries(), s@),
    {
        let mut j: usize = 0;
        while j < self.entries.len()
            invariant
                j <= self.entries@.len(),
                forall|m: int| 0 <= m < j ==> self.view_entries()[m] != s@,
            decreases self.entries@.len() - j,
        {
            if &self.entries[j] == s {
                proof {
                    assert(self.view_entries()[j as int] =~= s@);
                    lemma_first_entry_found(self.view_entries(), s@, 0, j as int);
                }
                return j;
            }
            proof {
                if self.view_entries()[j as int] == s@ {
                    assert(self.entries@[j as int]@ =~= s@);
                    assert(false);
                }
            }
            j = j + 1;
        }
        proof {
            lemma_first_entry_absent(self.view_entries(), s@, 0);
        }
        self.entries.len()
    }
}

/// Encoder state: the dictionary, the current prefix, and the codes so far.
pub struct LzwEncState {
    pub dict: Seq<Seq<u8>>,
    pub cur: Seq<u8>,
    pub coded: Seq<usize>,
}

/// One input byte: extend the prefix if the extension is known; otherwise
/// emit the prefix's code, add the extension, and restart from the byte.
pub open spec fn lzw_step(st: LzwEncState, b: u8) -> LzwEncState {
    let ext = st.cur.push(b);
    if dict_has(st.dict, ext) {
        LzwEncState { dict: st.dict, cur: ext, coded: st.coded }
    } else {
        LzwEncState {
            dict: st.dict.push(ext),
            cur: seq![b],
            coded: st.coded.push(dict_index(st.dict, st.cur) as usize),
        }
    }
}

/// The encoder state after all of `msg`.
pub open spec fn lzw_run(st: LzwEncState, msg: Seq<u8>) -> LzwEncState
    decreases msg.len(),
{
    if msg.len() == 0 {
        st
    } else {
        lzw_step(lzw_run(st, msg.drop_last()), msg.last())
    }
}

/// The code sequence for `msg`: run the dictionary over the input, then emit
/// the code of the remaining prefix (0 — the root — for an empty one).
pub open spec fn lzw_encode_spec(msg: Seq<u8>) -> Seq<usize> {
    let fin = lzw_run(
        LzwEncState { dict: init_dict(), cur: Seq::empty(), coded: Seq::empty() },
        msg,
    );
    fin.coded.push(
        if fin.cur.len() == 0 {
            0usize
        } else {
            dict_index(fin.dict, fin.cur) as usize
        },
    )
}

/// Encode `msg` as a sequence of dictionary codes.
pub fn encode(message: &[u8]) -> (r: Vec<usize>)
    requires
        message@.len() <= usize::MAX - 257,
    ensures
        r@ == lzw_encode_spec(message@),
        forall|i: int| 0 <= i < r@.len() ==> #[trigger] r@[i] < 256 + message@.len(),
{
    let mut dict = Dictionary::new_root();
    let mut cur: Vec<u8> = Vec::new();
    let mut coded: Vec<usize> = Vec::new();
    let mut i: usize = 0;
    proof {
        assert(message@.take(0) =~= Seq::<u8>::empty());
    }
    while i < message.len()
        invariant
            message@.len() <= usize::MAX - 257,
            i <= message@.len(),
            256 <= dict.view_entries().len() <= 256 + i,
            (LzwEncState { dict: dict.view_entries(), cur: cur@, coded: coded@ }) == lzw_run(
                LzwEncState { dict: init_dict(), cur: Seq::empty(), coded: Seq::empty() },
                message@.take(i as int),
            ),
            cur@.len() == 0 || dict_has(dict.view_entries(), cur@),
            forall|j: int| 0 <= j < 256 ==> dict.view_entries()[j] == seq![j as u8],
            forall|k: int| 0 <= k < coded@.len() ==> #[trigger] coded@[k] < 256 + i,
        decreases message@.len() - i,
    {
        let ghost pre = LzwEncState { dict: dict.view_entries(), cur: cur@, coded: coded@ };
        let byte: u8 = message[i];
        let mut ext = cur.clone();
        ext.push(byte);
        proof {
            assert(ext@ =~= cur@.push(byte));
        }
        let pos = dict.find(&ext);
        if pos < dict.len() {
            cur = ext;
        } else {
            proof {
                if cur@.len() == 0 {
                    assert(ext@ =~= seq![byte]);
                    assert forall|m: int| 0 <= m < byte as int implies dict.view_entries()[m]
                        != ext@ by {
                        assert(dict.view_entries()[m] == seq![m as u8]);
                        assert(seq![m as u8][0] == m as u8);
                        assert(ext@[0] == byte);
                    }
                    lemma_first_entry_found(dict.view_entries(), ext@, 0, byte as int);
                    assert(false);
                }
            }
            let cpos = dict.find(&cur);
            coded.push(cpos);
            dict.add(ext);
            cur = Vec::new();
            cur.push(byte);
            proof {
                assert(cur@ =~= seq![byte]);
                assert(dict.view_entries()[byte as int] == seq![byte]);
                assert forall|m: int| 0 <= m < byte as int implies dict.view_entries()[m]
                    != cur@ by {
                    assert(dict.view_entries()[m] == seq![m as u8]);
                    assert(seq![m as u8][0] == m as u8);
                    assert(cur@[0] == byte);
                }
                lemma_first_entry_found(dict.view_entries(), cur@, 0, byte as int)
            }
        }
        proof {
            assert(message@.take(i + 1).drop_last() =~= message@.take(i as int));
            assert((LzwEncState { dict: dict.view_entries(), cur: cur@, coded: coded@ })
                == lzw_step(pre, byte));
        }
        i = i + 1;
    }
    proof {
        assert(message@.take(message@.len() as int) =~= message@);
    }
    if cur.len() == 0 {
        coded.push(0);
    } else {
        let cpos = dict.find(&cur);
        coded.push(cpos);
    }
    coded
}

/// Decoder state: the reconstructed dictionary and the output so far.
pub struct LzwDecState {
    pub dict: Seq<Seq<u8>>,
    pub out: Seq<u8>,
}

/// One code: complete the newest (still open) entry with the first symbol of
/// the referenced entry, emit the referenced entry, and open a new entry
/// starting as its copy.
pub open spec fn lzw_dec_step(st: LzwDecState, idx: int) -> LzwDecState {
    let d1 = if st.dict.len() > 256 {
        st.dict.update(st.dict.len() - 1, st.dict.last().push(st.dict[idx][0]))
    } else {
        st.dict
    };
    LzwDecState { dict: d1.push(d1[idx]), out: st.out + d1[idx] }
}

/// The decoder state after all codes.
pub open spec fn lzw_dec_run(st: LzwDecState, coded: Seq<usize>) -> LzwDecState
    decreases coded.len(),
{
    if coded.len() == 0 {
        st
    } else {
        lzw_dec_step(lzw_dec_run(st, coded.drop_last()), coded.last() as int)
    }
}

/// The byte sequence that a code sequence decodes to.
pub open spec fn lzw_decode_spec(coded: Seq<usize>) -> Seq<u8> {
    lzw_dec_run(LzwDecState { dict: init_dict(), out: Seq::empty() }, coded).out
}

/// Decode a sequence of dictionary codes; each code must reference an entry
/// that exists when it is read (the entry opened by the previous code counts).
pub fn decode(coded: &[usize]) -> (r: Vec<u8>)
    requires
        forall|i: int| 0 <= i < coded@.len() ==> coded@[i] < 256 + i,
    ensures
        r@ == lzw_decode_spec(coded@),
{
    let mut dict = Dictionary::new_root();
    let mut out: Vec<u8> = Vec::new();
    let mut i: usize = 0;
    proof {
        assert(coded@.take(0) =~= Seq::<usize>::empty());
    }
    while i < coded.len()
        invariant
            i <= coded@.len(),
            forall|j: int| 0 <= j < coded@.len() ==> coded@[j] < 256 + j,
            dict.view_entries().len() == 256 + i,
            forall|j: int| 0 <= j < 256 + i ==> #[trigger] dict.view_entries()[j].len() >= 1,
            (LzwDecState { dict: dict.view_entries(), out: out@ }) == lzw_dec_run(
                LzwDecState { dict: init_dict(), out: Seq::empty() },
                coded@.take(i as int),
            ),
        decreases coded@.len() - i,
    {
        let ghost pre = LzwDecState { dict: dict.view_entries(), out: out@ };
        let idx: usize = coded[i];
        let first_sym: u8 = dict.entry_first(idx);
        if dict.len() > 256 {
            dict.push_to_last(first_sym);
        }
        let e = dict.entry_copy(idx);
        out.extend_from_slice(e.as_slice());
        proof {
            assert(out@ =~= pre.out + dict.view_entries()[idx as int]);
        }
        dict.add(e);
        proof {
            assert(coded@.take(i + 1).drop_last() =~= coded@.take(i as int));
            assert((LzwDecState { dict: dict.view_entries(), out: out@ }) == lzw_dec_step(
                pre,
                idx as int,
            ));
        }
        i = i + 1;
    }
    proof {
        assert(coded@.take(coded@.len() as int) =~= coded@);
    }
    out
}

impl Dictionary {
    /// First byte of entry `idx`.
    fn entry_first(&self, idx: usize) -> (b: u8)
        requires
            idx < self.view_entries().len(),
            self.view_entries()[idx as int].len() >= 1,
        ensures
            b == self.view_entries()[idx as int][0],
    {
        self.entries[idx][0]
    }

    /// Append `b` to the newest entry.
    fn push_to_last(&mut self, b: u8)
        requires
            old(self).view_entries().len() >= 1,
        ensures
            final(self).view_entries() == old(self).view_entries().update(
                old(self).view_entries().len() - 1,
                old(self).view_entries().last().push(b),
            ),
    {
        let last: usize = self.entries.len() - 1;
        self.entries[last].push(b);
        proof {
            assert(self.view_entries() =~= old(self).view_entries().update(
                old(self).view_entries().len() - 1,
                old(self).view_entries().last().push(b),
            ));
        }
    }

    /// A copy of entry `idx`.
    fn entry_copy(&self, idx: usize) -> (e: Vec<u8>)
        requires
            idx < self.view_entries().len(),
        ensures
            e@ == self.view_entries()[idx as int],
    {
        let e = self.entries[idx].clone();
        proof {
            assert(e@ =~= self.entries@[idx as int]@);
        }
        e
    }
}

} // verus!
