//! Names under which users select a cluster feature or a distance measure.

use vstd::prelude::*;
use vstd::string::StringSliceAdditionalSpecFns;

verus! {

/// A byte with ASCII upper-case letters mapped to lower case.
pub open spec fn spec_ascii_lower(b: u8) -> u8 {
    if 65 <= b && b <= 90 {
        (b + 32) as u8
    } else {
        b
    }
}

/// `bytes` spell the lower-case `word` once ASCII letters are lowered.
pub open spec fn spells_ignoring_case(bytes: Seq<u8>, word: Seq<u8>) -> bool {
    &&& bytes.len() == word.len()
    &&& forall|i: int| 0 <= i < bytes.len() ==> #[trigger] spec_ascii_lower(bytes[i]) == word[i]
}

fn ascii_lower(b: u8) -> (r: u8)
    ensures
        r == spec_ascii_lower(b),
{
    if 65 <= b && b <= 90 {
        b + 32
    } else {
        b
    }
}

/// Whether `bytes` spell `word` once ASCII letters are lowered.
fn eq_ignoring_case(bytes: &[u8], word: &[u8]) -> (r: bool)
    ensures
        r == spells_ignoring_case(bytes@, word@),
{
    if bytes.len() != word.len() {
        return false;
    }
    let mut i: usize = 0;
    while i < bytes.len()
        invariant
            bytes@.len() == word@.len(),
            i <= bytes@.len(),
            forall|k: int| 0 <= k < i ==> #[trigger] spec_ascii_lower(bytes@[k]) == word@[k],
        decreases bytes@.len() - i,
    {
        if ascii_lower(bytes[i]) != word[i] {
            return false;
        }
        i = i + 1;
    }
    true
}

/// Whether `bytes` and `word` are the same bytes.
fn eq_exact(bytes: &[u8], word: &[u8]) -> (r: bool)
    ensures
        r == (bytes@ == word@),
{
    if bytes.len() != word.len() {
        return false;
    }
    let mut i: usize = 0;
    while i < bytes.len()
        invariant
            bytes@.len() == word@.len(),
            i <= bytes@.len(),
            forall|k: int| 0 <= k < i ==> bytes@[k] == word@[k],
        decreases bytes@.len() - i,
    {
        if bytes[i] != word[i] {
            return false;
        }
        i = i + 1;
    }
    assert(bytes@ =~= word@);
    true
}

/// A name that matched none of the known ones.
pub struct UnknownName {
    pub name: String,
}

/// Cluster feature type selected by name.
#[derive(Clone, Copy, Debug, PartialEq, Eq, Structural)]
pub enum FeatureName {
    VII,
    VVI,
    VVV,
}

impl FeatureName {
    /// The name, in lower case.
    pub open spec fn spec_word(self) -> Seq<u8> {
        match self {
            FeatureName::VII => seq!['v' as u8, 'i' as u8, 'i' as u8],
            FeatureName::VVI => seq!['v' as u8, 'v' as u8, 'i' as u8],
            FeatureName::VVV => seq!['v' as u8, 'v' as u8, 'v' as u8],
        }
    }

    fn word(self) -> (r: Vec<u8>)
        ensures
            r@ == self.spec_word(),
    {
        match self {
            FeatureName::VII => vec!['v' as u8, 'i' as u8, 'i' as u8],
            FeatureName::VVI => vec!['v' as u8, 'v' as u8, 'i' as u8],
            FeatureName::VVV => vec!['v' as u8, 'v' as u8, 'v' as u8],
        }
    }

    /// The feature whose name `name` is, ignoring the case of ASCII letters.
    pub fn parse(name: &str) -> (r: Result<Self, UnknownName>)
        ensures
            match r {
                Ok(f) => spells_ignoring_case(name.spec_bytes(), f.spec_word()),
                Err(e) => {
                    &&& e.name@ == name@
                    &&& forall|f: FeatureName| !spells_ignoring_case(name.spec_bytes(), #[trigger] f.spec_word())
                },
            },
    {
        let bytes = name.as_bytes();
        let candidates = [FeatureName::VII, FeatureName::VVI, FeatureName::VVV];
        let mut i: usize = 0;
        while i < 3
            invariant
                bytes@ == name.spec_bytes(),
                candidates@ == seq![FeatureName::VII, FeatureName::VVI, FeatureName::VVV],
                i <= 3,
                forall|k: int| 0 <= k < i ==> !spells_ignoring_case(bytes@, #[trigger] candidates@[k].spec_word()),
            decreases 3 - i,
        {
            let f = candidates[i];
            if eq_ignoring_case(bytes, f.word().as_slice()) {
                return Ok(f);
            }
            i = i + 1;
        }
        proof {
            assert forall|f: FeatureName| !spells_ignoring_case(bytes@, #[trigger] f.spec_word()) by {
                match f {
                    FeatureName::VII => assert(candidates@[0] == f),
                    FeatureName::VVI => assert(candidates@[1] == f),
                    FeatureName::VVV => assert(candidates@[2] == f),
                }
            }
        }
        Err(UnknownName { name: name.to_owned() })
    }
}

/// Distance measure selected by name.
#[derive(Clone, Copy, Debug, PartialEq, Eq, Structural)]
pub enum DistanceName {
    Euclidean,
    Manhattan,
    AvgIntercluster,
    AvgIntracluster,
    VarianceIncrease,
    Radius,
}

impl DistanceName {
    /// The name, in lower case.
    pub open spec fn spec_word(self) -> Seq<u8> {
        match self {
            DistanceName::Euclidean => seq![
                'e' as u8, 'u' as u8, 'c' as u8, 'l' as u8, 'i' as u8, 'd' as u8, 'e' as u8,
                'a' as u8, 'n' as u8,
            ],
            DistanceName::Manhattan => seq![
                'm' as u8, 'a' as u8, 'n' as u8, 'h' as u8, 'a' as u8, 't' as u8, 't' as u8,
                'a' as u8, 'n' as u8,
            ],
            DistanceName::AvgIntercluster => seq![
                'a' as u8, 'v' as u8, 'g' as u8, 'i' as u8, 'n' as u8, 't' as u8, 'e' as u8,
                'r' as u8, 'c' as u8, 'l' as u8, 'u' as u8, 's' as u8, 't' as u8, 'e' as u8,
                'r' as u8,
            ],
            DistanceName::AvgIntracluster => seq![
                'a' as u8, 'v' as u8, 'g' as u8, 'i' as u8, 'n' as u8, 't' as u8, 'r' as u8,
                'a' as u8, 'c' as u8, 'l' as u8, 'u' as u8, 's' as u8, 't' as u8, 'e' as u8,
                'r' as u8,
            ],
            DistanceName::VarianceIncrease => seq![
                'v' as u8, 'a' as u8, 'r' as u8, 'i' as u8, 'a' as u8, 'n' as u8, 'c' as u8,
                'e' as u8, 'i' as u8, 'n' as u8, 'c' as u8, 'r' as u8, 'e' as u8, 'a' as u8,
                's' as u8, 'e' as u8,
            ],
            DistanceName::Radius => seq![
                'r' as u8, 'a' as u8, 'd' as u8, 'i' as u8, 'u' as u8, 's' as u8,
            ],
        }
    }

    fn word(self) -> (r: Vec<u8>)
        ensures
            r@ == self.spec_word(),
    {
        match self {
            DistanceName::Euclidean => vec![
                'e' as u8, 'u' as u8, 'c' as u8, 'l' as u8, 'i' as u8, 'd' as u8, 'e' as u8,
                'a' as u8, 'n' as u8,
            ],
            DistanceName::Manhattan => vec![
                'm' as u8, 'a' as u8, 'n' as u8, 'h' as u8, 'a' as u8, 't' as u8, 't' as u8,
                'a' as u8, 'n' as u8,
            ],
            DistanceName::AvgIntercluster => vec![
                'a' as u8, 'v' as u8, 'g' as u8, 'i' as u8, 'n' as u8, 't' as u8, 'e' as u8,
                'r' as u8, 'c' as u8, 'l' as u8, 'u' as u8, 's' as u8, 't' as u8, 'e' as u8,
                'r' as u8,
            ],
            DistanceName::AvgIntracluster => vec![
                'a' as u8, 'v' as u8, 'g' as u8, 'i' as u8, 'n' as u8, 't' as u8, 'r' as u8,
                'a' as u8, 'c' as u8, 'l' as u8, 'u' as u8, 's' as u8, 't' as u8, 'e' as u8,
                'r' as u8,
            ],
            DistanceName::VarianceIncrease => vec![
                'v' as u8, 'a' as u8, 'r' as u8, 'i' as u8, 'a' as u8, 'n' as u8, 'c' as u8,
                'e' as u8, 'i' as u8, 'n' as u8, 'c' as u8, 'r' as u8, 'e' as u8, 'a' as u8,
                's' as u8, 'e' as u8,
            ],
            DistanceName::Radius => vec![
                'r' as u8, 'a' as u8, 'd' as u8, 'i' as u8, 'u' as u8, 's' as u8,
            ],
        }
    }

    /// The distance whose name `name` is, ignoring the case of ASCII letters.
    pub fn parse(name: &str) -> (r: Result<Self, UnknownName>)
        ensures
            match r {
                Ok(d) => spells_ignoring_case(name.spec_bytes(), d.spec_word()),
                Err(e) => {
                    &&& e.name@ == name@
                    &&& forall|d: DistanceName| !spells_ignoring_case(name.spec_bytes(), #[trigger] d.spec_word())
                },
            },
    {
        let bytes = name.as_bytes();
        let candidates = Self::all();
        let mut i: usize = 0;
        while i < 6
            invariant
                bytes@ == name.spec_bytes(),
                candidates@ == Self::spec_all(),
                i <= 6,
                forall|k: int| 0 <= k < i ==> !spells_ignoring_case(bytes@, #[trigger] candidates@[k].spec_word()),
            decreases 6 - i,
        {
            let d = candidates[i];
            if eq_ignoring_case(bytes, d.word().as_slice()) {
                return Ok(d);
            }
            i = i + 1;
        }
        proof {
            assert forall|d: DistanceName| !spells_ignoring_case(bytes@, #[trigger] d.spec_word()) by {
                d.lemma_position();
                assert(candidates@[d.spec_position()].spec_word() == d.spec_word());
            }
        }
        Err(UnknownName { name: name.to_owned() })
    }

    /// The distance whose name is exactly `name`.
    pub fn parse_exact(name: &str) -> (r: Option<Self>)
        ensures
            match r {
                Some(d) => name.spec_bytes() == d.spec_word(),
                None => forall|d: DistanceName| name.spec_bytes() != #[trigger] d.spec_word(),
            },
    {
        let bytes = name.as_bytes();
        let candidates = Self::all();
        let mut i: usize = 0;
        while i < 6
            invariant
                bytes@ == name.spec_bytes(),
                candidates@ == Self::spec_all(),
                i <= 6,
                forall|k: int| 0 <= k < i ==> bytes@ != #[trigger] candidates@[k].spec_word(),
            decreases 6 - i,
        {
            let d = candidates[i];
            if eq_exact(bytes, d.word().as_slice()) {
                return Some(d);
            }
            i = i + 1;
        }
        proof {
            assert forall|d: DistanceName| bytes@ != #[trigger] d.spec_word() by {
                d.lemma_position();
                assert(candidates@[d.spec_position()].spec_word() == d.spec_word());
            }
        }
        None
    }

    spec fn spec_all() -> Seq<DistanceName> {
        seq![
            DistanceName::Euclidean,
            DistanceName::Manhattan,
            DistanceName::AvgIntercluster,
            DistanceName::AvgIntracluster,
            DistanceName::VarianceIncrease,
            DistanceName::Radius,
        ]
    }

    fn all() -> (r: [DistanceName; 6])
        ensures
            r@ == Self::spec_all(),
    {
        [
            DistanceName::Euclidean,
            DistanceName::Manhattan,
            DistanceName::AvgIntercluster,
            DistanceName::AvgIntracluster,
            DistanceName::VarianceIncrease,
            DistanceName::Radius,
        ]
    }

    spec fn spec_position(self) -> int {
        match self {
            DistanceName::Euclidean => 0,
            DistanceName::Manhattan => 1,
            DistanceName::AvgIntercluster => 2,
            DistanceName::AvgIntracluster => 3,
            DistanceName::VarianceIncrease => 4,
            DistanceName::Radius => 5,
        }
    }

    proof fn lemma_position(self)
        ensures
            0 <= self.spec_position() < 6,
            Self::spec_all()[self.spec_position()] == self,
    {
    }
}

/// Two words that the same name spells, ignoring case, are the same word.
pub proof fn lemma_spelled_word_unique(bytes: Seq<u8>, w1: Seq<u8>, w2: Seq<u8>)
    requires
        spells_ignoring_case(bytes, w1),
        spells_ignoring_case(bytes, w2),
    ensures
        w1 == w2,
{
    assert(w1 =~= w2) by {
        assert forall|i: int| 0 <= i < w1.len() implies w1[i] == w2[i] by {
            assert(spec_ascii_lower(bytes[i]) == w1[i]);
            assert(spec_ascii_lower(bytes[i]) == w2[i]);
        }
    }
}

/// A name spells at most one distance.
pub proof fn lemma_distance_spelled_once(bytes: Seq<u8>, d1: DistanceName, d2: DistanceName)
    requires
        spells_ignoring_case(bytes, d1.spec_word()),
        spells_ignoring_case(bytes, d2.spec_word()),
    ensures
        d1 == d2,
{
    lemma_spelled_word_unique(bytes, d1.spec_word(), d2.spec_word());
    let w1 = d1.spec_word();
    let w2 = d2.spec_word();
    assert(w1[0] == w2[0]);
    if w1.len() > 6 {
        assert(w1[6] == w2[6]);
    }
}

/// A name spells at most one feature.
pub proof fn lemma_feature_spelled_once(bytes: Seq<u8>, f1: FeatureName, f2: FeatureName)
    requires
        spells_ignoring_case(bytes, f1.spec_word()),
        spells_ignoring_case(bytes, f2.spec_word()),
    ensures
        f1 == f2,
{
    lemma_spelled_word_unique(bytes, f1.spec_word(), f2.spec_word());
    let w1 = f1.spec_word();
    let w2 = f2.spec_word();
    assert(w1[1] == w2[1]);
    assert(w1[2] == w2[2]);
}

} // verus!
