//! The alphabet model: symbols, each named and encoded by one opcode sequence.

use vstd::prelude::*;

verus! {

/// Why a set of symbols is not an alphabet.
#[derive(Debug, Clone, Copy, PartialEq, Eq, Structural)]
pub enum ConfigurationError {
    /// There is no symbol at all.
    EmptyAlphabet,
    /// Two symbols have the same opcode sequence.
    DuplicateOpcodeSequence,
    /// A symbol name occurs twice, or a symbol has no opcode.
    MalformedAlphabetConfig,
}

/// The symbols of a vector as pairs of a name and an opcode sequence.
pub open spec fn symbol_pairs(symbols: Seq<(String, Vec<u8>)>) -> Seq<(Seq<char>, Seq<u8>)> {
    symbols.map_values(|s: (String, Vec<u8>)| (s.0@, s.1@))
}

/// The opcode sequences of a vector.
pub open spec fn opcode_groups(groups: Seq<Vec<u8>>) -> Seq<Seq<u8>> {
    groups.map_values(|g: Vec<u8>| g@)
}

/// The groups of opcode sequences of a vector.
pub open spec fn length_groups(groups: Seq<Vec<Vec<u8>>>) -> Seq<Seq<Seq<u8>>> {
    groups.map_values(|g: Vec<Vec<u8>>| opcode_groups(g@))
}

/// The opcode sequences of the symbols, in the symbols' order.
pub open spec fn codes(symbols: Seq<(Seq<char>, Seq<u8>)>) -> Seq<Seq<u8>> {
    symbols.map_values(|s: (Seq<char>, Seq<u8>)| s.1)
}

/// No name belongs to two symbols.
pub open spec fn names_distinct(symbols: Seq<(Seq<char>, Seq<u8>)>) -> bool {
    forall|a: int, b: int| 0 <= a < b < symbols.len() ==> symbols[a].0 != symbols[b].0
}

/// Every symbol has at least one opcode.
pub open spec fn codes_nonempty(symbols: Seq<(Seq<char>, Seq<u8>)>) -> bool {
    forall|a: int| 0 <= a < symbols.len() ==> (#[trigger] symbols[a]).1.len() > 0
}

/// No opcode sequence belongs to two symbols.
pub open spec fn codes_distinct(symbols: Seq<(Seq<char>, Seq<u8>)>) -> bool {
    forall|a: int, b: int| 0 <= a < b < symbols.len() ==> symbols[a].1 != symbols[b].1
}

/// What makes a sequence of symbols an alphabet.
pub open spec fn well_formed(symbols: Seq<(Seq<char>, Seq<u8>)>) -> bool {
    &&& symbols.len() > 0
    &&& names_distinct(symbols)
    &&& codes_nonempty(symbols)
    &&& codes_distinct(symbols)
}

/// A mapping between symbol names and opcode sequences, one to one.
#[derive(Debug)]
pub struct Alphabet {
    symbols: Vec<(String, Vec<u8>)>,
}

impl View for Alphabet {
    type V = Seq<(Seq<char>, Seq<u8>)>;

    closed spec fn view(&self) -> Seq<(Seq<char>, Seq<u8>)> {
        symbol_pairs(self.symbols@)
    }
}

impl Clone for Alphabet {
    fn clone(&self) -> (copy: Self)
        ensures
            copy@ == self@,
    {
        proof {
            use_type_invariant(self);
        }
        let mut symbols: Vec<(String, Vec<u8>)> = Vec::new();
        let mut i: usize = 0;
        while i < self.symbols.len()
            invariant
                i <= self.symbols@.len(),
                symbol_pairs(symbols@) == self@.take(i as int),
            decreases self.symbols.len() - i,
        {
            let name = self.symbols[i].0.clone();
            let opcodes = self.symbols[i].1.clone();
            assert(name@ == self.symbols@[i as int].0@);
            assert(opcodes@ == self.symbols@[i as int].1@);
            let ghost before = symbol_pairs(symbols@);
            symbols.push((name, opcodes));
            assert(symbol_pairs(symbols@) =~= before.push((name@, opcodes@)));
            assert(symbol_pairs(symbols@) =~= self@.take(i + 1));
            i += 1;
        }
        assert(self@.take(i as int) =~= self@);
        Alphabet { symbols }
    }
}

/// Whether two opcode sequences are the same.
pub fn same_opcodes(a: &Vec<u8>, b: &Vec<u8>) -> (r: bool)
    ensures
        r == (a@ == b@),
{
    if a.len() != b.len() {
        return false;
    }
    let mut i: usize = 0;
    while i < a.len()
        invariant
            i <= a.len(),
            a.len() == b.len(),
            forall|k: int| 0 <= k < i ==> a@[k] == b@[k],
        decreases a.len() - i,
    {
        if a[i] != b[i] {
            return false;
        }
        i += 1;
    }
    assert(a@ =~= b@);
    true
}

impl Alphabet {
    /// Every alphabet is well formed.
    #[verifier::type_invariant]
    pub open spec fn valid(self) -> bool {
        well_formed(self@)
    }

    /// Makes an alphabet of the symbols given, each a name and its opcode
    /// sequence, in any order. No symbol at all is refused first, then an
    /// opcode sequence that occurs twice, then a name that occurs twice or a
    /// symbol without an opcode.
    pub fn new(symbols: Vec<(String, Vec<u8>)>) -> (r: Result<Alphabet, ConfigurationError>)
        ensures
            match r {
                Ok(alphabet) => alphabet@ == symbol_pairs(symbols@) && well_formed(alphabet@),
                Err(ConfigurationError::EmptyAlphabet) => symbols@.len() == 0,
                Err(ConfigurationError::DuplicateOpcodeSequence) => {
                    &&& symbols@.len() > 0
                    &&& !codes_distinct(symbol_pairs(symbols@))
                },
                Err(ConfigurationError::MalformedAlphabetConfig) => {
                    &&& symbols@.len() > 0
                    &&& codes_distinct(symbol_pairs(symbols@))
                    &&& !(names_distinct(symbol_pairs(symbols@)) && codes_nonempty(
                        symbol_pairs(symbols@),
                    ))
                },
            },
    {
        let ghost pairs = symbol_pairs(symbols@);
        let n = symbols.len();
        if n == 0 {
            return Err(ConfigurationError::EmptyAlphabet);
        }
        let mut i: usize = 0;
        while i < n
            invariant
                i <= n,
                n == symbols@.len(),
                pairs == symbol_pairs(symbols@),
                forall|a: int, b: int| 0 <= a < b < i ==> pairs[a].1 != pairs[b].1,
            decreases n - i,
        {
            let mut j: usize = 0;
            while j < i
                invariant
                    j <= i,
                    i < n,
                    n == symbols@.len(),
                    pairs == symbol_pairs(symbols@),
                    forall|a: int| 0 <= a < j ==> pairs[a].1 != pairs[i as int].1,
                decreases i - j,
            {
                if same_opcodes(&symbols[j].1, &symbols[i].1) {
                    assert(pairs[j as int].1 == pairs[i as int].1);
                    return Err(ConfigurationError::DuplicateOpcodeSequence);
                }
                j += 1;
            }
            i += 1;
        }
        let mut i: usize = 0;
        while i < n
            invariant
                i <= n,
                n == symbols@.len(),
                pairs == symbol_pairs(symbols@),
                codes_distinct(pairs),
                forall|a: int| 0 <= a < i ==> (#[trigger] pairs[a]).1.len() > 0,
                forall|a: int, b: int| 0 <= a < b < i ==> pairs[a].0 != pairs[b].0,
            decreases n - i,
        {
            if symbols[i].1.len() == 0 {
                assert(pairs[i as int].1.len() == 0);
                return Err(ConfigurationError::MalformedAlphabetConfig);
            }
            let mut j: usize = 0;
            while j < i
                invariant
                    j <= i,
                    i < n,
                    n == symbols@.len(),
                    pairs == symbol_pairs(symbols@),
                    codes_distinct(pairs),
                    forall|a: int| 0 <= a < j ==> pairs[a].0 != pairs[i as int].0,
                decreases i - j,
            {
                if symbols[j].0 == symbols[i].0 {
                    assert(pairs[j as int].0 == pairs[i as int].0);
                    return Err(ConfigurationError::MalformedAlphabetConfig);
                }
                j += 1;
            }
            i += 1;
        }
        Ok(Alphabet { symbols })
    }

    /// The number of symbols.
    pub fn len(&self) -> (n: usize)
        ensures
            n == self@.len(),
            n > 0,
    {
        proof {
            use_type_invariant(self);
        }
        self.symbols.len()
    }

    /// The symbols, each with its opcode sequence, in the order in which the
    /// alphabet was given.
    pub fn symbols(&self) -> (symbols: &Vec<(String, Vec<u8>)>)
        ensures
            symbol_pairs(symbols@) == self@,
            well_formed(self@),
    {
        proof {
            use_type_invariant(self);
        }
        &self.symbols
    }

    /// The name of the symbol whose opcode sequence is exactly `opcodes`, if
    /// there is one.
    pub fn lookup_by_opcode_sequence(&self, opcodes: &Vec<u8>) -> (r: Option<String>)
        ensures
            match r {
                Some(name) => exists|i: int|
                    0 <= i < self@.len() && self@[i] == (name@, opcodes@),
                None => forall|i: int| 0 <= i < self@.len() ==> (#[trigger] self@[i]).1 != opcodes@,
            },
    {
        let mut i: usize = 0;
        while i < self.symbols.len()
            invariant
                i <= self.symbols@.len(),
                forall|k: int| 0 <= k < i ==> (#[trigger] self@[k]).1 != opcodes@,
            decreases self.symbols.len() - i,
        {
            if same_opcodes(&self.symbols[i].1, opcodes) {
                let name = self.symbols[i].0.clone();
                assert(self@[i as int] == (name@, opcodes@));
                return Some(name);
            }
            i += 1;
        }
        None
    }
}

} // verus!
