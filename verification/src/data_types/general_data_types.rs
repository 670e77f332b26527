//! Plain data shared across the library: signal categories, the weights of
//! the separator objective, the provenance of waveforms and signal metadata.
use vstd::prelude::*;
use vstd::string::*;
use crate::text::{u64_to_decimal, nat_decimal, str_contains, seq_contains_text};
use hibitset::{BitSet, BitSetLike};
use crate::patterns::RegexList;
use vstd::std_specs::iter::IteratorSpec;

verus! {

/// Identifier of a sampled state.
pub type StateIdType = u64;

/// Weights of the two terms of the separator objective.
#[derive(Debug, Clone, Copy, PartialEq, Eq, Structural, Hash)]
pub struct FormulaScoreWeights {
    pub bex_multiplier: usize,
    pub predicate_base_cost: usize,
}

/// Which core of the co-simulation a signal belongs to.
#[derive(Debug, Clone, Copy, PartialEq, Eq, Structural)]
pub enum CoreType {
    RefCore,
    DutCore,
}

/// The signals one stage of a search looks at: those matching a pattern to
/// keep and no pattern to skip, of one core, under the stage's name.
#[derive(Debug)]
pub struct StageFilter {
    pub keep_patterns: RegexList,
    pub skip_patterns: RegexList,
    pub core_type: CoreType,
    pub stage_name: String,
}

/// Where a waveform came from.
#[derive(Debug, Clone, Copy, PartialEq, Eq, Structural)]
pub enum WaveFormSource {
    Seed,
    OldBenignExamples,
    Mutations,
    PreDeterminedGenerated,
    Unknown,
    OriginalCex,
    MustFulfill,
}

/// Priority rank of a waveform source: lower ranks sort first.
pub open spec fn spec_source_rank(source: WaveFormSource) -> u8 {
    match source {
        WaveFormSource::MustFulfill => 0,
        WaveFormSource::OriginalCex => 1,
        WaveFormSource::Mutations => 2,
        WaveFormSource::PreDeterminedGenerated => 3,
        WaveFormSource::Seed => 4,
        WaveFormSource::OldBenignExamples => 5,
        WaveFormSource::Unknown => 6,
    }
}

/// The source a recorded name stands for: none means unknown; a name that is
/// none of `FileSource.<variant>` stands for none.
pub open spec fn spec_source_named(name: Option<Seq<char>>) -> Option<WaveFormSource> {
    match name {
        None => Some(WaveFormSource::Unknown),
        Some(n) => if n == "FileSource.Seed"@ {
            Some(WaveFormSource::Seed)
        } else if n == "FileSource.OldBenignExamples"@ {
            Some(WaveFormSource::OldBenignExamples)
        } else if n == "FileSource.Mutations"@ {
            Some(WaveFormSource::Mutations)
        } else if n == "FileSource.PreDeterminedGenerated"@ {
            Some(WaveFormSource::PreDeterminedGenerated)
        } else if n == "FileSource.OriginalCex"@ {
            Some(WaveFormSource::OriginalCex)
        } else if n == "FileSource.MustFulfill"@ {
            Some(WaveFormSource::MustFulfill)
        } else if n == "FileSource.Unknown"@ {
            Some(WaveFormSource::Unknown)
        } else {
            None
        },
    }
}

fn is_name(n: &String, name: &str) -> (r: bool)
    ensures
        r == (n@ == name@),
{
    *n == String::from_str(name)
}

impl WaveFormSource {
    /// The source a recorded name (`FileSource.Seed`, ...) stands for; `None`
    /// for a name of no source.
    pub fn from_source_name(name: Option<&String>) -> (r: Option<WaveFormSource>)
        ensures
            r == spec_source_named(match name {
                Some(n) => Some(n@),
                None => None,
            }),
    {
        match name {
            None => Some(WaveFormSource::Unknown),
            Some(n) => if is_name(n, "FileSource.Seed") {
                Some(WaveFormSource::Seed)
            } else if is_name(n, "FileSource.OldBenignExamples") {
                Some(WaveFormSource::OldBenignExamples)
            } else if is_name(n, "FileSource.Mutations") {
                Some(WaveFormSource::Mutations)
            } else if is_name(n, "FileSource.PreDeterminedGenerated") {
                Some(WaveFormSource::PreDeterminedGenerated)
            } else if is_name(n, "FileSource.OriginalCex") {
                Some(WaveFormSource::OriginalCex)
            } else if is_name(n, "FileSource.MustFulfill") {
                Some(WaveFormSource::MustFulfill)
            } else if is_name(n, "FileSource.Unknown") {
                Some(WaveFormSource::Unknown)
            } else {
                None
            },
        }
    }

    /// Priority rank of this source; waveform sources are ordered by it.
    pub fn rank(&self) -> (r: u8)
        ensures
            r == spec_source_rank(*self),
    {
        match self {
            WaveFormSource::MustFulfill => 0,
            WaveFormSource::OriginalCex => 1,
            WaveFormSource::Mutations => 2,
            WaveFormSource::PreDeterminedGenerated => 3,
            WaveFormSource::Seed => 4,
            WaveFormSource::OldBenignExamples => 5,
            WaveFormSource::Unknown => 6,
        }
    }
}

/// Functional category of a signal.
#[derive(Debug, Clone, Copy, PartialEq, Eq, Structural, Hash)]
pub enum SignalType {
    ClockReset,
    Control,
    Data,
    Funct7,
    Address,
    Immediate,
    RegisterFileAddress,
    Register,
    Counter,
    Instruction,
    Unknown,
}

impl Default for SignalType {
    fn default() -> (r: Self)
        ensures
            r == SignalType::Unknown,
    {
        SignalType::Unknown
    }
}

/// A set of signal categories, kept as a list without repetitions.
#[derive(Debug, Clone)]
pub struct SignalTypesSet {
    pub types: Vec<SignalType>,
}

impl SignalTypesSet {
    /// The categories in the set.
    pub open spec fn view(&self) -> Set<SignalType> {
        self.types@.to_set()
    }

    /// No category is listed twice.
    pub open spec fn wf(&self) -> bool {
        self.types@.no_duplicates()
    }

    pub fn new() -> (s: Self)
        ensures
            s.view() == Set::<SignalType>::empty(),
            s.wf(),
    {
        let s = SignalTypesSet { types: Vec::new() };
        assert(s.view() =~= Set::<SignalType>::empty());
        s
    }

    pub fn is_empty(&self) -> (r: bool)
        ensures
            r == (self.view() == Set::<SignalType>::empty()),
    {
        proof {
            if self.types@.len() > 0 {
                assert(self.view().contains(self.types@[0]));
            } else {
                assert(self.view() =~= Set::<SignalType>::empty());
            }
        }
        self.types.len() == 0
    }

    pub fn contains(&self, signal_type: &SignalType) -> (r: bool)
        ensures
            r == self.view().contains(*signal_type),
    {
        let n = self.types.len();
        for i in 0..n
            invariant
                n == self.types@.len(),
                forall|k: int| 0 <= k < i ==> self.types@[k] != *signal_type,
        {
            if self.types[i] == *signal_type {
                assert(self.types@.contains(*signal_type));
                return true;
            }
        }
        false
    }

    pub fn insert(&mut self, signal_type: SignalType)
        ensures
            final(self).view() == old(self).view().insert(signal_type),
            old(self).wf() ==> final(self).wf(),
    {
        if !self.contains(&signal_type) {
            self.types.push(signal_type);
            proof {
                assert(self.types@ == old(self).types@.push(signal_type));
                assert(old(self).types@.push(signal_type) =~= old(self).types@ + seq![signal_type]);
                Seq::<SignalType>::lemma_to_set_insert_commutes(old(self).types@, signal_type);
                assert(self.view() =~= old(self).view().insert(signal_type));
            }
        } else {
            assert(self.view() =~= old(self).view().insert(signal_type));
        }
    }

    pub fn new_from_type(signal_type: SignalType) -> (s: Self)
        ensures
            s.view() == Set::<SignalType>::empty().insert(signal_type),
            s.wf(),
    {
        let mut set = SignalTypesSet::new();
        set.insert(signal_type);
        set
    }

    pub fn with_type(self, signal_type: SignalType) -> (s: Self)
        ensures
            s.view() == self.view().insert(signal_type),
            self.wf() ==> s.wf(),
    {
        let mut s = self;
        s.insert(signal_type);
        s
    }

    /// The categories of the set, each once.
    pub fn iter(&self) -> (r: std::slice::Iter<'_, SignalType>)
        ensures
            vstd::std_specs::slice::into_iter_elts(r) == self.types@,
    {
        self.types.iter()
    }

    pub fn contains_any_type(&self, signal_types: &Vec<SignalType>) -> (r: bool)
        ensures
            r == exists|i: int| 0 <= i < signal_types@.len() && self.view().contains(#[trigger] signal_types@[i]),
    {
        let n = signal_types.len();
        for i in 0..n
            invariant
                n == signal_types@.len(),
                forall|k: int| 0 <= k < i ==> !self.view().contains(#[trigger] signal_types@[k]),
        {
            if self.contains(&signal_types[i]) {
                return true;
            }
        }
        false
    }

    /// A copy of the set.
    pub fn copy_set(&self) -> (s: Self)
        ensures
            s.types@ == self.types@,
    {
        let mut v: Vec<SignalType> = Vec::new();
        let n = self.types.len();
        for i in 0..n
            invariant
                n == self.types@.len(),
                v@ == self.types@.take(i as int),
        {
            v.push(self.types[i]);
            assert(v@ =~= self.types@.take(i + 1));
        }
        assert(v@ =~= self.types@);
        SignalTypesSet { types: v }
    }
}

impl Default for SignalTypesSet {
    fn default() -> (s: Self)
        ensures
            s.types@ == Seq::<SignalType>::empty(),
    {
        SignalTypesSet { types: Vec::new() }
    }
}

/// A waveform selected by the fuzzer as an example.
#[derive(Debug, Clone)]
pub struct FuzzerDataPoint {
    pub file: String,
    pub waveform_path: String,
    pub file_source: WaveFormSource,
    pub program_distance: u32,
}

/// Metadata of one recorded signal.
#[derive(Debug, Clone)]
pub struct SignalInfo {
    pub aliases: Vec<String>,
    pub id: u64,
    pub length: usize,
    pub signal_types: SignalTypesSet,
}

/// The display name of a signal: its first alias, or `signal_<id>` when it has none.
pub open spec fn spec_signal_name(aliases: Seq<String>, id: u64) -> Seq<char> {
    if aliases.len() > 0 { aliases[0]@ } else { "signal_"@ + nat_decimal(id as nat) }
}

/// What `str::to_lowercase` returns for a text.
pub uninterp spec fn lowercase_text(s: Seq<char>) -> Seq<char>;

/// Calls `str::to_lowercase`: the result is named `lowercase_text` of the input's characters.
#[verifier::external_body]
pub(crate) fn to_lowercase(s: &str) -> (r: String)
    ensures
        r@ == lowercase_text(s@),
{
    s.to_lowercase()
}

impl SignalInfo {
    pub fn get_signal_name(&self) -> (r: String)
        ensures
            r@ == spec_signal_name(self.aliases@, self.id),
    {
        if self.aliases.len() > 0 {
            self.aliases[0].clone()
        } else {
            let mut s = String::from_str("signal_");
            let d = u64_to_decimal(self.id);
            s.append(&d);
            s
        }
    }

    pub fn any_alias_contains(&self, substring: &str, case_sensitive: bool) -> (r: bool)
        ensures
            case_sensitive ==> (r == exists|i: int| 0 <= i < self.aliases@.len()
                && seq_contains_text(#[trigger] self.aliases@[i]@, substring@)),
            !case_sensitive ==> (r == exists|i: int| 0 <= i < self.aliases@.len()
                && seq_contains_text(lowercase_text(#[trigger] self.aliases@[i]@), lowercase_text(substring@))),
    {
        let n = self.aliases.len();
        if case_sensitive {
            for i in 0..n
                invariant
                    n == self.aliases@.len(),
                    case_sensitive,
                    forall|k: int| 0 <= k < i ==> !seq_contains_text(#[trigger] self.aliases@[k]@, substring@),
            {
                if str_contains(self.aliases[i].as_str(), substring) {
                    assert(seq_contains_text(self.aliases@[i as int]@, substring@));
                    return true;
                }
            }
            false
        } else {
            let lowered = to_lowercase(substring);
            for i in 0..n
                invariant
                    n == self.aliases@.len(),
                    lowered@ == lowercase_text(substring@),
                    !case_sensitive,
                    forall|k: int| 0 <= k < i ==> !seq_contains_text(lowercase_text(#[trigger] self.aliases@[k]@), lowercase_text(substring@)),
            {
                let alias_lowered = to_lowercase(self.aliases[i].as_str());
                if str_contains(alias_lowered.as_str(), lowered.as_str()) {
                    assert(seq_contains_text(lowercase_text(self.aliases@[i as int]@), lowercase_text(substring@)));
                    return true;
                }
            }
            false
        }
    }
}


// ----------------------------------------------------------------------------
// Bit sets of state identifiers
// ----------------------------------------------------------------------------

#[verifier::external_type_specification]
#[verifier::external_body]
pub struct ExBitSet(BitSet);

/// The members of a `hibitset::BitSet`.
pub uninterp spec fn bitset_members(b: BitSet) -> Set<u32>;

/// Indices a bit set accepts: `BitSet::add` panics from `2 << (BITS * 4 - 1)`
/// on, where `BITS` is 6 for 64-bit and 5 for 32-bit `usize`: `2^24` or `2^20`.
pub open spec fn bitset_index_ok(i: u32) -> bool {
    i < if usize::BITS == 64 { 0x100_0000u32 } else { 0x10_0000u32 }
}

/// The elements of a sequence come in strictly increasing order.
pub open spec fn strictly_increasing(s: Seq<u32>) -> bool {
    forall|i: int, j: int| 0 <= i < j < s.len() ==> s[i] < s[j]
}

/// Calls `BitSet::new`: an empty set.
#[verifier::external_body]
fn bitset_new() -> (b: BitSet)
    ensures
        bitset_members(b) == Set::<u32>::empty(),
{
    BitSet::new()
}

/// Calls `BitSet::add`: `id` becomes a member; the result tells whether it already was one.
#[verifier::external_body]
fn bitset_add(b: &mut BitSet, id: u32) -> (was_member: bool)
    requires
        bitset_index_ok(id),
    ensures
        bitset_members(*final(b)) == bitset_members(*old(b)).insert(id),
        was_member == bitset_members(*old(b)).contains(id),
{
    b.add(id)
}

/// Calls `BitSet::remove`: `id` is no member afterwards; the result tells whether it was one.
#[verifier::external_body]
fn bitset_remove(b: &mut BitSet, id: u32) -> (was_member: bool)
    ensures
        bitset_members(*final(b)) == bitset_members(*old(b)).remove(id),
        was_member == bitset_members(*old(b)).contains(id),
{
    b.remove(id)
}

/// Calls `BitSet::contains`: membership of `id`.
#[verifier::external_body]
fn bitset_contains(b: &BitSet, id: u32) -> (r: bool)
    ensures
        r == bitset_members(*b).contains(id),
{
    b.contains(id)
}

/// Calls `BitSet::contains_set`: every member of `other` is a member of `b`.
#[verifier::external_body]
fn bitset_contains_set(b: &BitSet, other: &BitSet) -> (r: bool)
    requires
        forall|x: u32| #[trigger] bitset_members(*b).contains(x) ==> bitset_index_ok(x),
        forall|x: u32| #[trigger] bitset_members(*other).contains(x) ==> bitset_index_ok(x),
    ensures
        r == bitset_members(*other).subset_of(bitset_members(*b)),
{
    b.contains_set(other)
}

/// Calls `BitSetLike::is_empty`: the set has no member.
#[verifier::external_body]
fn bitset_is_empty(b: &BitSet) -> (r: bool)
    ensures
        r == (bitset_members(*b) == Set::<u32>::empty()),
{
    BitSetLike::is_empty(b)
}

/// Walks the set with `BitSetLike::iter`, which yields the members in increasing order.
#[verifier::external_body]
fn bitset_elements(b: &BitSet) -> (r: Vec<u32>)
    requires
        forall|x: u32| #[trigger] bitset_members(*b).contains(x) ==> bitset_index_ok(x),
    ensures
        r@.to_set() == bitset_members(*b),
        strictly_increasing(r@),
{
    b.iter().collect()
}

/// A set of state identifiers.
#[derive(Debug)]
pub struct BitSetWrapper {
    bitset: Box<BitSet>,
}

impl View for BitSetWrapper {
    type V = Set<u32>;

    closed spec fn view(&self) -> Set<u32> {
        bitset_members(*self.bitset)
    }
}

proof fn lemma_increasing_no_duplicates(s: Seq<u32>)
    requires
        strictly_increasing(s),
    ensures
        s.no_duplicates(),
{
    assert forall|i: int, j: int| 0 <= i < s.len() && 0 <= j < s.len() && i != j implies s[i] != s[j] by {
        if i < j {
            assert(s[i] < s[j]);
        } else {
            assert(s[j] < s[i]);
        }
    }
}

impl BitSetWrapper {
    pub fn new() -> (r: Self)
        ensures
            r@ == Set::<u32>::empty(),
    {
        BitSetWrapper { bitset: Box::new(bitset_new()) }
    }

    pub fn is_empty(&self) -> (r: bool)
        ensures
            r == (self@ == Set::<u32>::empty()),
    {
        bitset_is_empty(&self.bitset)
    }

    /// The members in increasing order.
    pub fn collect(&self) -> (r: Vec<u32>)
        ensures
            r@.to_set() == self@,
            strictly_increasing(r@),
            forall|x: u32| #[trigger] self@.contains(x) ==> bitset_index_ok(x),
    {
        proof { use_type_invariant(self); }
        bitset_elements(&self.bitset)
    }

    /// The number of members.
    pub fn len(&self) -> (r: usize)
        ensures
            self@.finite(),
            r == self@.len(),
    {
        let v = self.collect();
        proof {
            lemma_increasing_no_duplicates(v@);
            v@.unique_seq_to_set();
        }
        v.len()
    }

    pub fn count(&self) -> (r: usize)
        ensures
            self@.finite(),
            r == self@.len(),
    {
        self.len()
    }

    pub fn add(&mut self, index: u32)
        requires
            bitset_index_ok(index),
        ensures
            final(self)@ == old(self)@.insert(index),
    {
        proof { use_type_invariant(&*self); }
        let mut b = Box::new(bitset_new());
        std::mem::swap(&mut b, &mut self.bitset);
        bitset_add(&mut b, index);
        self.bitset = b;
    }

    pub fn insert(&mut self, index: u32)
        requires
            bitset_index_ok(index),
        ensures
            final(self)@ == old(self)@.insert(index),
    {
        self.add(index);
    }

    pub fn remove(&mut self, index: u32)
        ensures
            final(self)@ == old(self)@.remove(index),
    {
        proof { use_type_invariant(&*self); }
        let mut b = Box::new(bitset_new());
        std::mem::swap(&mut b, &mut self.bitset);
        bitset_remove(&mut b, index);
        self.bitset = b;
    }

    /// The set holding the members of `hashset`.
    pub fn from_hashset(hashset: &std::collections::HashSet<u32>) -> (r: Self)
        requires
            forall|x: u32| #[trigger] hashset@.contains(x) ==> bitset_index_ok(x),
        ensures
            r@ == hashset@,
    {
        let mut v: Vec<u32> = Vec::new();
        for k in it: hashset.iter()
            invariant
                v@ == it.seq().take(it.index()).unref(),
        {
            v.push(*k);
            assert(v@ =~= it.seq().take(it.index() + 1).unref());
        }
        assert(v@ =~= vstd::std_specs::hash::spec_hash_keys_iter(hashset).remaining().unref());
        proof {
            vstd::std_specs::hash::axiom_spec_hash_keys_iter(hashset);
        }
        assert forall|i: int| 0 <= i < v@.len() implies bitset_index_ok(#[trigger] v@[i]) by {
            assert(v@.to_set().contains(v@[i]));
        }
        let r = BitSetWrapper::from_vec(v);
        r
    }

    pub fn from_vec(vec: Vec<u32>) -> (r: Self)
        requires
            forall|i: int| 0 <= i < vec@.len() ==> bitset_index_ok(#[trigger] vec@[i]),
        ensures
            r@ == vec@.to_set(),
    {
        let mut r = BitSetWrapper::new();
        r.insert_all(&vec);
        assert(r@ =~= vec@.to_set());
        r
    }

    pub fn insert_all(&mut self, indices: &Vec<u32>)
        requires
            forall|i: int| 0 <= i < indices@.len() ==> bitset_index_ok(#[trigger] indices@[i]),
        ensures
            final(self)@ == old(self)@.union(indices@.to_set()),
    {
        let n = indices.len();
        for i in 0..n
            invariant
                n == indices@.len(),
                forall|k: int| 0 <= k < indices@.len() ==> bitset_index_ok(#[trigger] indices@[k]),
                self@ == old(self)@.union(indices@.take(i as int).to_set()),
        {
            self.add(indices[i]);
            proof {
                assert(indices@.take(i + 1) =~= indices@.take(i as int).push(indices@[i as int]));
                indices@.take(i as int).lemma_push_to_set_commute(indices@[i as int]);
            }
            assert(self@ =~= old(self)@.union(indices@.take(i + 1).to_set()));
        }
        assert(indices@.take(n as int) =~= indices@);
    }

    pub fn remove_all(&mut self, indices: &Vec<u32>)
        ensures
            final(self)@ == old(self)@.difference(indices@.to_set()),
    {
        let n = indices.len();
        for i in 0..n
            invariant
                n == indices@.len(),
                self@ == old(self)@.difference(indices@.take(i as int).to_set()),
        {
            self.remove(indices[i]);
            proof {
                assert(indices@.take(i + 1) =~= indices@.take(i as int).push(indices@[i as int]));
                indices@.take(i as int).lemma_push_to_set_commute(indices@[i as int]);
            }
            assert(self@ =~= old(self)@.difference(indices@.take(i + 1).to_set()));
        }
        assert(indices@.take(n as int) =~= indices@);
    }

    /// A new set holding the members of both.
    pub fn union(&self, other: &Self) -> (r: Self)
        ensures
            r@ == self@.union(other@),
    {
        let mut r = BitSetWrapper::new();
        let a = self.collect();
        let b = other.collect();
        proof { use_type_invariant(self); use_type_invariant(other); }
        assert forall|i: int| 0 <= i < a@.len() implies bitset_index_ok(#[trigger] a@[i]) by {
            assert(a@.to_set().contains(a@[i]));
        }
        assert forall|i: int| 0 <= i < b@.len() implies bitset_index_ok(#[trigger] b@[i]) by {
            assert(b@.to_set().contains(b@[i]));
        }
        r.insert_all(&a);
        r.insert_all(&b);
        assert(r@ =~= self@.union(other@));
        r
    }

    /// A new set holding the common members.
    pub fn intersection(&self, other: &Self) -> (r: Self)
        ensures
            r@ == self@.intersect(other@),
    {
        let mut r = BitSetWrapper::new();
        let a = self.collect();
        proof { use_type_invariant(self); }
        let n = a.len();
        for i in 0..n
            invariant
                n == a@.len(),
                a@.to_set() == self@,
                forall|x: u32| self@.contains(x) ==> bitset_index_ok(x),
                r@ == a@.take(i as int).to_set().intersect(other@),
        {
            assert(a@.to_set().contains(a@[i as int]));
            let x = a[i];
            if other.contains(&x) {
                r.add(x);
            }
            proof {
                assert(a@.take(i + 1) =~= a@.take(i as int).push(x));
                a@.take(i as int).lemma_push_to_set_commute(x);
            }
            assert(r@ =~= a@.take(i + 1).to_set().intersect(other@));
        }
        assert(a@.take(n as int) =~= a@);
        r
    }

    pub fn contains_any(&self, other_list: &[u32]) -> (r: bool)
        ensures
            r == exists|i: int| 0 <= i < other_list@.len() && self@.contains(#[trigger] other_list@[i]),
    {
        let n = other_list.len();
        for i in 0..n
            invariant
                n == other_list@.len(),
                forall|k: int| 0 <= k < i ==> !self@.contains(#[trigger] other_list@[k]),
        {
            if self.contains(&other_list[i]) {
                return true;
            }
        }
        false
    }

    pub fn contains(&self, index: &u32) -> (r: bool)
        ensures
            r == self@.contains(*index),
    {
        bitset_contains(&self.bitset, *index)
    }

    /// `self` holds every member of `other` and `other` lacks some member of `self`.
    pub fn is_strict_superset(&self, other: &Self) -> (r: bool)
        ensures
            r == (other@.subset_of(self@) && !self@.subset_of(other@)),
    {
        proof {
            use_type_invariant(self);
            use_type_invariant(other);
        }
        bitset_contains_set(&self.bitset, &other.bitset) && !bitset_contains_set(&other.bitset, &self.bitset)
    }

    pub fn is_strict_subset(&self, other: &Self) -> (r: bool)
        ensures
            r == (self@.subset_of(other@) && !other@.subset_of(self@)),
    {
        other.is_strict_superset(self)
    }

    pub fn is_superset(&self, other: &Self) -> (r: bool)
        ensures
            r == other@.subset_of(self@),
    {
        proof {
            use_type_invariant(self);
            use_type_invariant(other);
        }
        bitset_contains_set(&self.bitset, &other.bitset)
    }

    pub fn is_subset(&self, other: &Self) -> (r: bool)
        ensures
            r == self@.subset_of(other@),
    {
        other.is_superset(self)
    }

    /// The smallest member, if any.
    pub fn return_first_element(&self) -> (r: Option<u32>)
        ensures
            r is None <==> self@ == Set::<u32>::empty(),
            r matches Some(x) ==> self@.contains(x) && forall|y: u32| self@.contains(y) ==> x <= y,
    {
        let v = self.collect();
        if v.len() == 0 {
            assert(self@ =~= Set::<u32>::empty());
            None
        } else {
            assert(v@.to_set().contains(v@[0]));
            assert forall|y: u32| self@.contains(y) implies v@[0] <= y by {
                let k = choose|k: int| 0 <= k < v@.len() && v@[k] == y;
                if k > 0 {
                    assert(v@[0] < v@[k]);
                }
            }
            Some(v[0])
        }
    }

    /// A copy of the set.
    pub fn duplicate(&self) -> (r: Self)
        ensures
            r@ == self@,
    {
        let v = self.collect();
        proof { use_type_invariant(self); }
        assert forall|i: int| 0 <= i < v@.len() implies bitset_index_ok(#[trigger] v@[i]) by {
            assert(v@.to_set().contains(v@[i]));
        }
        BitSetWrapper::from_vec(v)
    }

    /// Every member is within the index bound the bit set accepts.
    #[verifier::type_invariant]
    spec fn members_in_bound(&self) -> bool {
        forall|x: u32| bitset_members(*self.bitset).contains(x) ==> bitset_index_ok(x)
    }

}

} // verus!
