use vstd::prelude::*;

use crate::symbol::{SymbolNames, TalkSymbol, TalkSymbolRegistry};

use smallvec::SmallVec;

verus! {

/// The symbols of a multi-argument signature, held in a `SmallVec` (inline for up to four
/// arguments, which covers most messages). The small vector is private to this type and is
/// reached through the methods below.
#[verifier::external_body]
pub struct SignatureSymbols {
    symbols: SmallVec<[TalkSymbol; 4]>,
}

/// The symbols held by a signature's symbol list, in order
pub uninterp spec fn signature_symbols_items(symbols: SignatureSymbols) -> Seq<TalkSymbol>;

impl SignatureSymbols {
    /// `SmallVec::from_vec`: a small vector holding the same items as the vector, in the same order
    #[verifier::external_body]
    pub(crate) fn from_vec(symbols: Vec<TalkSymbol>) -> (result: SignatureSymbols)
        ensures
            signature_symbols_items(result) == symbols@,
    {
        SignatureSymbols { symbols: SmallVec::from_vec(symbols) }
    }

    /// `SmallVec::len`: the number of items held
    #[verifier::external_body]
    pub(crate) fn len(&self) -> (result: usize)
        ensures
            result == signature_symbols_items(*self).len(),
    {
        self.symbols.len()
    }

    /// `SmallVec::index`: the item at a position (which must be in range, otherwise it panics)
    #[verifier::external_body]
    pub(crate) fn get(&self, index: usize) -> (result: TalkSymbol)
        requires
            index < signature_symbols_items(*self).len(),
        ensures
            result == signature_symbols_items(*self)[index as int],
    {
        self.symbols[index]
    }

    /// `SmallVec::push`: appends an item. The length is kept below the point where growing
    /// the buffer reports a capacity overflow (see the limit below).
    #[verifier::external_body]
    pub(crate) fn push(&mut self, symbol: TalkSymbol)
        requires
            signature_symbols_items(*old(self)).len() < MAX_SIGNATURE_ARGUMENTS,
        ensures
            signature_symbols_items(*final(self)) == signature_symbols_items(*old(self)).push(symbol),
    {
        self.symbols.push(symbol)
    }

    /// `SmallVec::clone`: a small vector holding the same items (symbols are copied exactly)
    #[verifier::external_body]
    pub(crate) fn duplicate(&self) -> (result: SignatureSymbols)
        ensures
            signature_symbols_items(result) == signature_symbols_items(*self),
    {
        SignatureSymbols { symbols: self.symbols.clone() }
    }
}

/// The largest number of arguments a signature can be extended to: growing the symbol buffer
/// any further would need more than `isize::MAX` bytes, which `SmallVec` reports as a capacity
/// overflow (a symbol is the size of a `usize`, and the buffer grows to the next power of two)
pub const MAX_SIGNATURE_ARGUMENTS: usize = usize::MAX / 32 + 1;

/// The uppercase mapping of a character, as given by `char::to_uppercase`
pub uninterp spec fn spec_char_uppercase(chr: char) -> Seq<char>;

/// `char::to_uppercase`, collected into a vector. The standard library documents the result as
/// one or more characters; for ASCII characters it maps `a`-`z` to `A`-`Z` and leaves every other
/// character as it is. What it does with other characters is the Unicode uppercase mapping, which
/// is not stated here.
#[verifier::external_body]
fn char_to_uppercase(chr: char) -> (result: Vec<char>)
    ensures
        result@ == spec_char_uppercase(chr),
        result@.len() >= 1,
        ('a' <= chr && chr <= 'z') ==> result@ == seq![((chr as u32) - 32) as char],
        ((chr as u32) < 128 && !('a' <= chr && chr <= 'z')) ==> result@ == seq![chr],
{
    chr.to_uppercase().collect()
}

/// A name with its first character converted to upper case
pub open spec fn spec_capitalized(name: Seq<char>) -> Seq<char> {
    if name.len() == 0 {
        Seq::empty()
    } else {
        spec_char_uppercase(name[0]) + name.drop_first()
    }
}

/// Whether a name is empty or starts with an ASCII character
pub open spec fn starts_ascii(name: Seq<char>) -> bool {
    name.len() == 0 || (name[0] as u32) < 128
}

/// A name whose first character is ASCII, capitalized: `a`-`z` become `A`-`Z`, any other first
/// character stays as it is
pub open spec fn ascii_capitalized(name: Seq<char>) -> Seq<char> {
    if name.len() > 0 && 'a' <= name[0] && name[0] <= 'z' {
        seq![((name[0] as u32) - 32) as char] + name.drop_first()
    } else {
        name
    }
}

/// Capitalizes the first letter of a string
pub fn capitalized(name: &Vec<char>) -> (result: Vec<char>)
    ensures
        result@ == spec_capitalized(name@),
        starts_ascii(name@) ==> spec_capitalized(name@) == ascii_capitalized(name@),
{
    if name.len() == 0 {
        return Vec::new();
    }
    let mut result = char_to_uppercase(name[0]);
    let ghost first = result@;
    let mut i: usize = 1;
    while i < name.len()
        invariant
            1 <= i <= name@.len(),
            result@ == first + name@.subrange(1, i as int),
        decreases name@.len() - i,
    {
        result.push(name[i]);
        assert(result@ =~= first + name@.subrange(1, i + 1));
        i = i + 1;
    }
    assert(name@.subrange(1, name@.len() as int) =~= name@.drop_first());
    result
}

/// The abstract form of a message signature
pub enum SignatureView {
    Unary(TalkSymbol),
    Arguments(Seq<TalkSymbol>),
}

///
/// A message signature describes a message
///
/// Signatures are usually used to generate message IDs, though they can be used for
/// introspection of arbitrary messages.
///
pub enum TalkMessageSignature {
    Unary(TalkSymbol),
    Arguments(SignatureSymbols),
}

impl View for TalkMessageSignature {
    type V = SignatureView;

    open spec fn view(&self) -> SignatureView {
        match self {
            TalkMessageSignature::Unary(symbol) => SignatureView::Unary(*symbol),
            TalkMessageSignature::Arguments(args) => SignatureView::Arguments(
                signature_symbols_items(*args),
            ),
        }
    }
}

impl SignatureView {
    /// Number of arguments in a message with this signature
    pub open spec fn len(self) -> nat {
        match self {
            SignatureView::Unary(_) => 0,
            SignatureView::Arguments(args) => args.len(),
        }
    }
}

///
/// A unique ID for a message signature
///
/// Every message is mapped to a unique ID, which can be used as a means to quickly match a
/// message against its action. Every message ID has a fixed number of arguments.
///
#[derive(Clone, Copy, PartialEq, Eq, Structural, PartialOrd, Ord, Hash, Debug)]
pub struct TalkMessageSignatureId(pub usize);


/// The abstract state of the signature table: the signature for each ID
pub struct SignatureIds {
    pub signatures: Seq<SignatureView>,
}

impl SignatureIds {
    /// The number of signature IDs that have been allocated
    pub open spec fn len(self) -> nat {
        self.signatures.len()
    }

    /// Every signature has exactly one ID
    pub open spec fn wf(self) -> bool {
        forall|i: int, j: int|
            #![trigger self.signatures[i], self.signatures[j]]
            0 <= i < self.signatures.len() && 0 <= j < self.signatures.len() && i != j
                ==> self.signatures[i] != self.signatures[j]
    }

    /// True if the signature already has an ID
    pub open spec fn has(self, signature: SignatureView) -> bool {
        exists|i: int| 0 <= i < self.signatures.len() && #[trigger] self.signatures[i] == signature
    }

    /// The ID of a signature that has one
    pub open spec fn id_of(self, signature: SignatureView) -> int {
        choose|i: int| 0 <= i < self.signatures.len() && #[trigger] self.signatures[i] == signature
    }

    /// The result of asking for the ID of a signature: its existing ID, or the next ID
    pub open spec fn intern(self, signature: SignatureView) -> (SignatureIds, nat) {
        if self.has(signature) {
            (self, self.id_of(signature) as nat)
        } else {
            (SignatureIds { signatures: self.signatures.push(signature) }, self.len())
        }
    }
}

/// The signature made by adding an extra parameter to a signature: `foo:` with `bar:` becomes
/// `foo:bar:`, and a unary `foo` with `bar:` becomes `fooBar:` (which may add a symbol)
pub open spec fn extra_parameter_signature(
    signature: SignatureView,
    new_symbol: TalkSymbol,
    symbols: SymbolNames,
) -> (SymbolNames, SignatureView) {
    match signature {
        SignatureView::Arguments(args) => (symbols, SignatureView::Arguments(args.push(new_symbol))),
        SignatureView::Unary(old_symbol) => {
            let new_name = symbols.names[old_symbol.0 as int] + spec_capitalized(
                symbols.names[new_symbol.0 as int],
            );
            let (new_symbols, combined) = symbols.intern(new_name);
            (new_symbols, SignatureView::Arguments(seq![TalkSymbol(combined as usize)]))
        },
    }
}

/// The signature that a single symbol stands for: keywords (`foo:`) and binary operators (`+`)
/// take one argument, other symbols are unary
pub open spec fn symbol_signature(symbols: SymbolNames, symbol: TalkSymbol) -> SignatureView {
    if symbols.is_keyword(symbol.0 as int) || symbols.is_binary(symbol.0 as int) {
        SignatureView::Arguments(seq![symbol])
    } else {
        SignatureView::Unary(symbol)
    }
}

/// The signature that a list of symbols stands for: a single symbol as `symbol_signature`,
/// otherwise a signature with one argument per symbol
pub open spec fn symbols_signature(symbols: SymbolNames, list: Seq<TalkSymbol>) -> SignatureView {
    if list.len() == 1 {
        symbol_signature(symbols, list[0])
    } else {
        SignatureView::Arguments(list)
    }
}

///
/// The table of message signatures: maps each signature to its ID and each ID back to its
/// signature
///
pub struct TalkMessageSignatures {
    /// The signature for each ID
    signatures: Vec<TalkMessageSignature>,
}

impl View for TalkMessageSignatures {
    type V = SignatureIds;

    closed spec fn view(&self) -> SignatureIds {
        SignatureIds { signatures: Seq::new(self.signatures@.len(), |i: int| self.signatures@[i]@) }
    }
}

/// True if two signatures are the same
fn same_signature(a: &TalkMessageSignature, b: &TalkMessageSignature) -> (result: bool)
    ensures
        result == (a@ == b@),
{
    match (a, b) {
        (TalkMessageSignature::Unary(a_sym), TalkMessageSignature::Unary(b_sym)) => *a_sym == *b_sym,
        (TalkMessageSignature::Arguments(a_args), TalkMessageSignature::Arguments(b_args)) => {
            let len = a_args.len();
            if len != b_args.len() {
                return false;
            }
            let mut i: usize = 0;
            while i < len
                invariant
                    a@ == SignatureView::Arguments(signature_symbols_items(*a_args)),
                    b@ == SignatureView::Arguments(signature_symbols_items(*b_args)),
                    len == signature_symbols_items(*a_args).len(),
                    len == signature_symbols_items(*b_args).len(),
                    i <= len,
                    forall|j: int|
                        0 <= j < i ==> signature_symbols_items(*a_args)[j]
                            == signature_symbols_items(*b_args)[j],
                decreases len - i,
            {
                if a_args.get(i) != b_args.get(i) {
                    assert(signature_symbols_items(*a_args)[i as int] != signature_symbols_items(
                        *b_args,
                    )[i as int]);
                    return false;
                }
                i = i + 1;
            }
            assert(signature_symbols_items(*a_args) =~= signature_symbols_items(*b_args));
            true
        },
        _ => false,
    }
}

impl Clone for TalkMessageSignature {
    fn clone(&self) -> (result: Self)
        ensures
            result@ == self@,
    {
        match self {
            TalkMessageSignature::Unary(symbol) => TalkMessageSignature::Unary(*symbol),
            TalkMessageSignature::Arguments(args) => TalkMessageSignature::Arguments(args.duplicate()),
        }
    }
}

impl TalkMessageSignatures {
    /// Creates a table with no signatures in it
    pub fn new() -> (result: TalkMessageSignatures)
        ensures
            result@.wf(),
            result@.len() == 0,
    {
        let result = TalkMessageSignatures { signatures: Vec::new() };
        assert(result@.signatures =~= Seq::<SignatureView>::empty());
        result
    }

    /// The number of signature IDs allocated so far
    pub fn len(&self) -> (result: usize)
        ensures
            result == self@.len(),
    {
        self.signatures.len()
    }

    /// Returns the ID for a signature, allocating one if the signature has not been seen before
    pub fn id_for(&mut self, signature: &TalkMessageSignature) -> (result: TalkMessageSignatureId)
        requires
            old(self)@.wf(),
        ensures
            final(self)@.wf(),
            (final(self)@, result.0 as nat) == old(self)@.intern(signature@),
    {
        let mut i: usize = 0;
        while i < self.signatures.len()
            invariant
                self@.wf(),
                i <= self.signatures@.len(),
                forall|j: int| 0 <= j < i ==> self.signatures@[j]@ != signature@,
            decreases self.signatures@.len() - i,
        {
            if same_signature(&self.signatures[i], signature) {
                assert(self@.signatures[i as int] == signature@);
                let ghost k = self@.id_of(signature@);
                assert(self@.signatures[k] == signature@);
                return TalkMessageSignatureId(i);
            }
            i = i + 1;
        }
        assert forall|j: int| 0 <= j < self@.signatures.len() implies #[trigger] self@.signatures[j]
            != signature@ by {
            assert(self@.signatures[j] == self.signatures@[j]@);
        }
        let ghost old_view = self@;
        let id = self.signatures.len();
        self.signatures.push(signature.clone());
        assert(self@.signatures =~= old_view.signatures.push(signature@));
        TalkMessageSignatureId(id)
    }
}

impl TalkMessageSignature {
    /// Returns the ID for this signature
    pub fn id(&self, signatures: &mut TalkMessageSignatures) -> (result: TalkMessageSignatureId)
        requires
            old(signatures)@.wf(),
        ensures
            final(signatures)@.wf(),
            (final(signatures)@, result.0 as nat) == old(signatures)@.intern(self@),
    {
        signatures.id_for(self)
    }

    /// Creates a unary message signature
    pub fn unary(symbol: TalkSymbol) -> (result: TalkMessageSignature)
        ensures
            result@ == SignatureView::Unary(symbol),
    {
        TalkMessageSignature::Unary(symbol)
    }

    /// Creates a message signature with arguments
    pub fn with_arguments(symbols: Vec<TalkSymbol>) -> (result: TalkMessageSignature)
        ensures
            result@ == SignatureView::Arguments(symbols@),
    {
        TalkMessageSignature::Arguments(SignatureSymbols::from_vec(symbols))
    }

    /// True if this is a signature for a unary message (one with no arguments)
    pub fn is_unary(&self) -> (result: bool)
        ensures
            result == (self@ is Unary),
    {
        match self {
            TalkMessageSignature::Unary(_) => true,
            _ => false,
        }
    }

    /// Returns the symbol at the start of this signature
    pub fn first_symbol(&self) -> (result: TalkSymbol)
        requires
            self@ is Arguments ==> self@->Arguments_0.len() > 0,
        ensures
            result == match self@ {
                SignatureView::Unary(symbol) => symbol,
                SignatureView::Arguments(args) => args[0],
            },
    {
        match self {
            TalkMessageSignature::Unary(symbol) => *symbol,
            TalkMessageSignature::Arguments(args) => args.get(0),
        }
    }

    /// Number of arguments in this message signature
    pub fn len(&self) -> (result: usize)
        ensures
            result == self@.len(),
    {
        match self {
            TalkMessageSignature::Unary(_) => 0,
            TalkMessageSignature::Arguments(args) => args.len(),
        }
    }
}


impl TalkMessageSignatureId {
    /// Retrieves the signature corresponding to this ID
    pub fn to_signature(&self, signatures: &TalkMessageSignatures) -> (result: TalkMessageSignature)
        requires
            self.0 < signatures@.len(),
        ensures
            result@ == signatures@.signatures[self.0 as int],
    {
        signatures.signatures[self.0].clone()
    }

    /// Retrieves the number of arguments for this signature ID
    pub fn len(&self, signatures: &TalkMessageSignatures) -> (result: usize)
        requires
            self.0 < signatures@.len(),
        ensures
            result == signatures@.signatures[self.0 as int].len(),
    {
        signatures.signatures[self.0].len()
    }

    ///
    /// Appends an extra parameter to this signature ID
    ///
    /// The extra parameter must always have a value. For a message like `foo:`, adding a parameter
    /// like `bar:` will generate the message `foo:bar:`. However, for a unary message like `foo`,
    /// the generated signature will be `fooBar:`.
    ///
    pub fn with_extra_parameter(
        &self,
        new_symbol: TalkSymbol,
        signatures: &mut TalkMessageSignatures,
        symbols: &mut TalkSymbolRegistry,
    ) -> (result: TalkMessageSignatureId)
        requires
            old(signatures)@.wf(),
            old(symbols)@.wf(),
            self.0 < old(signatures)@.len(),
            old(symbols)@.contains(new_symbol.0 as int),
            old(signatures)@.signatures[self.0 as int] matches SignatureView::Unary(old_symbol)
                ==> old(symbols)@.contains(old_symbol.0 as int),
            old(signatures)@.signatures[self.0 as int].len() < MAX_SIGNATURE_ARGUMENTS,
        ensures
            final(signatures)@.wf(),
            final(symbols)@.wf(),
            final(symbols)@ == extra_parameter_signature(
                old(signatures)@.signatures[self.0 as int],
                new_symbol,
                old(symbols)@,
            ).0,
            (final(signatures)@, result.0 as nat) == old(signatures)@.intern(
                extra_parameter_signature(
                    old(signatures)@.signatures[self.0 as int],
                    new_symbol,
                    old(symbols)@,
                ).1,
            ),
            old(signatures)@.signatures[self.0 as int] is Unary && starts_ascii(old(symbols)@.names[new_symbol.0 as int])
                ==> spec_capitalized(old(symbols)@.names[new_symbol.0 as int]) == ascii_capitalized(old(symbols)@.names[new_symbol.0 as int]),
    {
        let signature = self.to_signature(signatures);
        let new_signature = match signature {
            TalkMessageSignature::Arguments(args) => {
                let mut new_args = args.duplicate();
                new_args.push(new_symbol);
                TalkMessageSignature::Arguments(new_args)
            },
            TalkMessageSignature::Unary(old_symbol) => {
                let mut new_name = old_symbol.name_chars(symbols).clone();
                let suffix = capitalized(new_symbol.name_chars(symbols));
                let ghost first = new_name@;
                let mut i: usize = 0;
                while i < suffix.len()
                    invariant
                        i <= suffix@.len(),
                        new_name@ == first + suffix@.take(i as int),
                    decreases suffix@.len() - i,
                {
                    new_name.push(suffix[i]);
                    assert(new_name@ =~= first + suffix@.take(i + 1));
                    i = i + 1;
                }
                assert(suffix@.take(suffix@.len() as int) =~= suffix@);
                let combined = symbols.symbol_for_chars(new_name);
                let mut args: Vec<TalkSymbol> = Vec::new();
                args.push(combined);
                assert(args@ =~= seq![TalkSymbol(combined.0)]);
                TalkMessageSignature::Arguments(SignatureSymbols::from_vec(args))
            },
        };
        new_signature.id(signatures)
    }

    /// The signature ID for a single symbol: keywords (`foo:`) and binary operators (`+`) take
    /// one argument, other symbols are unary messages
    pub fn from_symbol(
        symbol: TalkSymbol,
        signatures: &mut TalkMessageSignatures,
        symbols: &TalkSymbolRegistry,
    ) -> (result: TalkMessageSignatureId)
        requires
            old(signatures)@.wf(),
            symbols@.contains(symbol.0 as int),
        ensures
            final(signatures)@.wf(),
            (final(signatures)@, result.0 as nat) == old(signatures)@.intern(
                symbol_signature(symbols@, symbol),
            ),
    {
        if symbol.is_keyword(symbols) || symbol.is_binary(symbols) {
            let mut args: Vec<TalkSymbol> = Vec::new();
            args.push(symbol);
            assert(args@ =~= seq![symbol]);
            TalkMessageSignature::with_arguments(args).id(signatures)
        } else {
            TalkMessageSignature::unary(symbol).id(signatures)
        }
    }

    /// The signature ID for a list of symbols: a single symbol is treated as `from_symbol` does,
    /// other lists are messages with one argument for each symbol
    pub fn from_symbols(
        list: Vec<TalkSymbol>,
        signatures: &mut TalkMessageSignatures,
        symbols: &TalkSymbolRegistry,
    ) -> (result: TalkMessageSignatureId)
        requires
            old(signatures)@.wf(),
            list@.len() == 1 ==> symbols@.contains(list@[0].0 as int),
        ensures
            final(signatures)@.wf(),
            (final(signatures)@, result.0 as nat) == old(signatures)@.intern(
                symbols_signature(symbols@, list@),
            ),
    {
        if list.len() == 1 {
            Self::from_symbol(list[0], signatures, symbols)
        } else {
            TalkMessageSignature::with_arguments(list).id(signatures)
        }
    }
}

impl TalkMessageSignature {
    ///
    /// Appends an extra parameter to this signature
    ///
    /// For a message like `foo:`, adding a parameter like `bar:` will generate the message
    /// `foo:bar:`. For a unary message like `foo`, the generated signature will be `fooBar:`.
    ///
    pub fn with_extra_parameter(
        &self,
        new_symbol: TalkSymbol,
        signatures: &mut TalkMessageSignatures,
        symbols: &mut TalkSymbolRegistry,
    ) -> (result: TalkMessageSignature)
        requires
            old(signatures)@.wf(),
            old(symbols)@.wf(),
            old(symbols)@.contains(new_symbol.0 as int),
            self@ matches SignatureView::Unary(old_symbol) ==> old(symbols)@.contains(
                old_symbol.0 as int,
            ),
            self@.len() < MAX_SIGNATURE_ARGUMENTS,
        ensures
            final(signatures)@.wf(),
            final(symbols)@.wf(),
            final(symbols)@ == extra_parameter_signature(self@, new_symbol, old(symbols)@).0,
            result@ == extra_parameter_signature(self@, new_symbol, old(symbols)@).1,
            self@ is Unary && starts_ascii(old(symbols)@.names[new_symbol.0 as int])
                ==> spec_capitalized(old(symbols)@.names[new_symbol.0 as int]) == ascii_capitalized(old(symbols)@.names[new_symbol.0 as int]),
    {
        let id = self.id(signatures);
        proof {
            law_signature_id_round_trip(old(signatures)@, self@);
        }
        let extended = id.with_extra_parameter(new_symbol, signatures, symbols);
        proof {
            law_signature_id_round_trip(
                signatures@,
                extra_parameter_signature(self@, new_symbol, old(symbols)@).1,
            );
        }
        extended.to_signature(signatures)
    }
}

/// Whether a signature starts with another: the same unary symbol, or all of the other's
/// argument symbols followed by any number of further arguments
pub open spec fn signature_starts_with(signature: SignatureView, prefix: SignatureView) -> bool {
    match (signature, prefix) {
        (SignatureView::Unary(symbol), SignatureView::Unary(prefix_symbol)) => symbol == prefix_symbol,
        (SignatureView::Arguments(args), SignatureView::Arguments(prefix_args)) => {
            prefix_args.len() <= args.len() && args.take(prefix_args.len() as int) == prefix_args
        },
        _ => false,
    }
}

/// The signature made of the arguments of `signature` that come after those of a signature that
/// it starts with (`None` when nothing comes after them)
pub open spec fn signature_after(signature: SignatureView, prefix: SignatureView) -> Option<SignatureView> {
    match (signature, prefix) {
        (SignatureView::Arguments(args), SignatureView::Arguments(prefix_args)) => if prefix_args.len() < args.len() {
            Some(SignatureView::Arguments(args.skip(prefix_args.len() as int)))
        } else {
            None
        },
        _ => None,
    }
}

/// The signature of two messages combined: the arguments of the first followed by those of the
/// second; a unary message adds no arguments, and two unary messages combine to the first
pub open spec fn combined_signature(first: SignatureView, second: SignatureView) -> SignatureView {
    match (first, second) {
        (SignatureView::Arguments(first_args), SignatureView::Arguments(second_args)) => SignatureView::Arguments(first_args + second_args),
        (SignatureView::Unary(_), SignatureView::Arguments(second_args)) => SignatureView::Arguments(second_args),
        (SignatureView::Arguments(first_args), SignatureView::Unary(_)) => SignatureView::Arguments(first_args),
        (SignatureView::Unary(first_symbol), SignatureView::Unary(_)) => SignatureView::Unary(first_symbol),
    }
}

/// What is left of a message's signature once a selector is matched against its start
pub enum TalkSignatureRemainder {
    /// The signature does not start with the selector
    DoesNotMatch,
    /// The signature is the selector
    Complete,
    /// The signature starts with the selector and goes on with these arguments
    Remaining(TalkMessageSignature),
}

/// A copy of the symbols of a signature's arguments, from a position to the end
fn symbols_from(args: &SignatureSymbols, start: usize) -> (result: Vec<TalkSymbol>)
    requires
        start <= signature_symbols_items(*args).len(),
    ensures
        result@ == signature_symbols_items(*args).skip(start as int),
{
    let ghost items = signature_symbols_items(*args);
    let len = args.len();
    let mut result: Vec<TalkSymbol> = Vec::new();
    let mut i: usize = start;
    while i < len
        invariant
            items == signature_symbols_items(*args),
            len == items.len(),
            start <= i <= len,
            result@ == items.subrange(start as int, i as int),
        decreases len - i,
    {
        result.push(args.get(i));
        assert(result@ =~= items.subrange(start as int, i + 1));
        i = i + 1;
    }
    assert(items.subrange(start as int, len as int) =~= items.skip(start as int));
    result
}

impl TalkMessageSignature {
    /// Whether this signature starts with a selector (see `signature_starts_with`)
    pub fn starts_with(&self, prefix: &TalkMessageSignature) -> (result: bool)
        ensures
            result == signature_starts_with(self@, prefix@),
    {
        match (self, prefix) {
            (TalkMessageSignature::Unary(symbol), TalkMessageSignature::Unary(prefix_symbol)) => *symbol == *prefix_symbol,
            (TalkMessageSignature::Arguments(args), TalkMessageSignature::Arguments(prefix_args)) => {
                let ghost items = signature_symbols_items(*args);
                let ghost prefix_items = signature_symbols_items(*prefix_args);
                let len = prefix_args.len();
                if len > args.len() {
                    return false;
                }
                let mut i: usize = 0;
                while i < len
                    invariant
                        items == signature_symbols_items(*args),
                        prefix_items == signature_symbols_items(*prefix_args),
                        self@ == SignatureView::Arguments(items),
                        prefix@ == SignatureView::Arguments(prefix_items),
                        len == prefix_items.len(),
                        len <= items.len(),
                        i <= len,
                        forall|j: int| 0 <= j < i ==> items[j] == prefix_items[j],
                    decreases len - i,
                {
                    if args.get(i) != prefix_args.get(i) {
                        assert(items.take(len as int)[i as int] != prefix_items[i as int]);
                        return false;
                    }
                    i = i + 1;
                }
                assert(items.take(len as int) =~= prefix_items);
                true
            },
            _ => false,
        }
    }

    /// Matches a selector against the start of this signature: whether it does not match, is the
    /// whole signature, or is followed by further arguments (and which)
    pub fn after(&self, prefix: &TalkMessageSignature) -> (result: TalkSignatureRemainder)
        ensures
            !signature_starts_with(self@, prefix@) <==> result is DoesNotMatch,
            signature_starts_with(self@, prefix@) ==> match signature_after(self@, prefix@) {
                Some(rest) => result matches TalkSignatureRemainder::Remaining(remaining) && remaining@ == rest,
                None => result is Complete,
            },
    {
        if !self.starts_with(prefix) {
            return TalkSignatureRemainder::DoesNotMatch;
        }
        match (self, prefix) {
            (TalkMessageSignature::Arguments(args), TalkMessageSignature::Arguments(prefix_args)) => {
                let start = prefix_args.len();
                if start < args.len() {
                    TalkSignatureRemainder::Remaining(TalkMessageSignature::with_arguments(symbols_from(args, start)))
                } else {
                    TalkSignatureRemainder::Complete
                }
            },
            _ => TalkSignatureRemainder::Complete,
        }
    }

    /// The signature of this message combined with another (see `combined_signature`)
    pub fn combined_with(&self, second: &TalkMessageSignature) -> (result: TalkMessageSignature)
        ensures
            result@ == combined_signature(self@, second@),
    {
        match (self, second) {
            (TalkMessageSignature::Arguments(first_args), TalkMessageSignature::Arguments(second_args)) => {
                let mut symbols = symbols_from(first_args, 0);
                let mut rest = symbols_from(second_args, 0);
                symbols.append(&mut rest);
                proof {
                    assert(signature_symbols_items(*first_args).skip(0) =~= signature_symbols_items(*first_args));
                    assert(signature_symbols_items(*second_args).skip(0) =~= signature_symbols_items(*second_args));
                }
                TalkMessageSignature::with_arguments(symbols)
            },
            (TalkMessageSignature::Unary(_), TalkMessageSignature::Arguments(second_args)) => TalkMessageSignature::Arguments(second_args.duplicate()),
            (TalkMessageSignature::Arguments(first_args), TalkMessageSignature::Unary(_)) => TalkMessageSignature::Arguments(first_args.duplicate()),
            (TalkMessageSignature::Unary(first_symbol), TalkMessageSignature::Unary(_)) => TalkMessageSignature::Unary(*first_symbol),
        }
    }
}

/// The signature of the `value` message that calls a block with a number of arguments: `value`
/// for none, `value:` for one, `value:value:` for two and so on
pub open spec fn value_signature(value_symbol: TalkSymbol, value_keyword: TalkSymbol, num_arguments: nat) -> SignatureView {
    if num_arguments == 0 {
        SignatureView::Unary(value_symbol)
    } else {
        SignatureView::Arguments(Seq::new(num_arguments, |i: int| value_keyword))
    }
}

/// Returns the message signature ID for the `value:value:` type message with the specified
/// number of arguments (`value` for no arguments, `value:` for one, and so on)
pub fn value_message_signature(
    num_arguments: usize,
    signatures: &mut TalkMessageSignatures,
    symbols: &mut TalkSymbolRegistry,
) -> (result: TalkMessageSignatureId)
    requires
        old(signatures)@.wf(),
        old(symbols)@.wf(),
    ensures
        final(signatures)@.wf(),
        final(symbols)@.wf(),
        num_arguments == 0 ==> {
            let (new_symbols, value_symbol) = old(symbols)@.intern("value"@);
            &&& final(symbols)@ == new_symbols
            &&& (final(signatures)@, result.0 as nat) == old(signatures)@.intern(
                value_signature(TalkSymbol(value_symbol as usize), TalkSymbol(value_symbol as usize), 0),
            )
        },
        num_arguments > 0 ==> {
            let (new_symbols, value_keyword) = old(symbols)@.intern("value:"@);
            &&& final(symbols)@ == new_symbols
            &&& (final(signatures)@, result.0 as nat) == old(signatures)@.intern(
                value_signature(TalkSymbol(value_keyword as usize), TalkSymbol(value_keyword as usize), num_arguments as nat),
            )
        },
{
    if num_arguments == 0 {
        let value_symbol = symbols.symbol_for("value");
        TalkMessageSignature::unary(value_symbol).id(signatures)
    } else {
        let value_keyword = symbols.symbol_for("value:");
        let mut args: Vec<TalkSymbol> = Vec::new();
        let mut i: usize = 0;
        while i < num_arguments
            invariant
                i <= num_arguments,
                args@ == Seq::new(i as nat, |k: int| value_keyword),
            decreases num_arguments - i,
        {
            args.push(value_keyword);
            assert(args@ =~= Seq::new((i + 1) as nat, |k: int| value_keyword));
            i = i + 1;
        }
        TalkMessageSignature::with_arguments(args).id(signatures)
    }
}

/// Combining a message with arguments with another one and then matching the first message's
/// selector against the result gives back the second message's arguments
pub proof fn law_after_undoes_combine(first: Seq<TalkSymbol>, second: Seq<TalkSymbol>)
    requires
        second.len() > 0,
    ensures
        signature_starts_with(
            combined_signature(SignatureView::Arguments(first), SignatureView::Arguments(second)),
            SignatureView::Arguments(first),
        ),
        signature_after(
            combined_signature(SignatureView::Arguments(first), SignatureView::Arguments(second)),
            SignatureView::Arguments(first),
        ) == Some(SignatureView::Arguments(second)),
{
    assert((first + second).take(first.len() as int) =~= first);
    assert((first + second).skip(first.len() as int) =~= second);
}

/// A signature always starts with itself, and nothing comes after itself
pub proof fn law_signature_starts_with_itself(signature: SignatureView)
    ensures
        signature_starts_with(signature, signature),
        signature_after(signature, signature) is None,
{
    if let SignatureView::Arguments(args) = signature {
        assert(args.take(args.len() as int) =~= args);
    }
}

/// A symbol whose name starts with a letter and does not end in `:` stands for a unary message
/// (no arguments); a keyword symbol (ending in `:`) stands for a message with one argument
pub proof fn law_symbol_signature_arguments(symbols: SymbolNames, symbol: TalkSymbol)
    requires
        symbols.contains(symbol.0 as int),
        symbols.names[symbol.0 as int].len() > 0,
    ensures
        symbols.names[symbol.0 as int].last() == ':' ==> symbol_signature(symbols, symbol).len() == 1,
        (('a' <= symbols.names[symbol.0 as int][0] && symbols.names[symbol.0 as int][0] <= 'z')
            || ('A' <= symbols.names[symbol.0 as int][0] && symbols.names[symbol.0 as int][0] <= 'Z'))
            && symbols.names[symbol.0 as int].last() != ':'
            ==> symbol_signature(symbols, symbol) == SignatureView::Unary(symbol),
{
    crate::symbol::law_binary_characters_are_punctuation(symbols.names[symbol.0 as int][0]);
}

/// The signature stored for an ID is the signature the ID was made from, and the table stays
/// consistent
pub proof fn law_signature_id_round_trip(signatures: SignatureIds, signature: SignatureView)
    requires
        signatures.wf(),
    ensures
        signatures.intern(signature).0.wf(),
        signatures.intern(signature).1 < signatures.intern(signature).0.len(),
        signatures.intern(signature).0.signatures[signatures.intern(signature).1 as int]
            == signature,
        signatures.intern(signature).0.signatures.take(signatures.len() as int)
            == signatures.signatures,
{
    if signatures.has(signature) {
        let k = signatures.id_of(signature);
        assert(signatures.signatures[k] == signature);
        assert(signatures.signatures.take(signatures.len() as int) =~= signatures.signatures);
    } else {
        assert(signatures.signatures.push(signature).take(signatures.len() as int)
            =~= signatures.signatures);
    }
}

/// Two signatures get the same ID exactly when they are the same signature, and asking for an
/// ID again gives the same ID without changing the table
pub proof fn law_signature_ids_unique(
    signatures: SignatureIds,
    first: SignatureView,
    second: SignatureView,
)
    requires
        signatures.wf(),
    ensures
        (signatures.intern(first).0.intern(second).1 == signatures.intern(first).1) <==> (first
            == second),
        signatures.intern(first).0.intern(first) == signatures.intern(first),
{
    law_signature_id_round_trip(signatures, first);
    let (after, id) = signatures.intern(first);
    law_signature_id_round_trip(after, second);
    let (after2, id2) = after.intern(second);
    assert(after.has(first));
    let k = after.id_of(first);
    assert(after.signatures[k] == first);
    assert(k == id as int);
    if id2 == id {
        assert(after2.signatures[id2 as int] == second);
        assert(after2.signatures[id as int] == after.signatures[id as int]);
    }
}

/// Adding the same parameter to the same signature again gives the same signature and the same
/// signature ID, and changes neither the symbols nor the signature table
pub proof fn law_extra_parameter_is_stable(
    signatures: SignatureIds,
    symbols: SymbolNames,
    signature: SignatureView,
    new_symbol: TalkSymbol,
)
    requires
        signatures.wf(),
        symbols.wf(),
        symbols.contains(new_symbol.0 as int),
        signature matches SignatureView::Unary(old_symbol) ==> symbols.contains(old_symbol.0 as int),
    ensures
        ({
            let (symbols_after, extended) = extra_parameter_signature(signature, new_symbol, symbols);
            let (signatures_after, id) = signatures.intern(extended);
            &&& extra_parameter_signature(signature, new_symbol, symbols_after) == (symbols_after, extended)
            &&& signatures_after.intern(extended) == (signatures_after, id)
        }),
{
    let (symbols_after, extended) = extra_parameter_signature(signature, new_symbol, symbols);
    if let SignatureView::Unary(old_symbol) = signature {
        let new_name = symbols.names[old_symbol.0 as int] + spec_capitalized(symbols.names[new_symbol.0 as int]);
        crate::symbol::law_symbols_keep_their_names(symbols, new_name);
        assert(symbols_after.names.take(symbols.len() as int)[old_symbol.0 as int] == symbols_after.names[old_symbol.0 as int]);
        assert(symbols_after.names.take(symbols.len() as int)[new_symbol.0 as int] == symbols_after.names[new_symbol.0 as int]);
        crate::symbol::law_intern_idempotent(symbols, new_name);
    }
    law_signature_ids_unique(signatures, extended, extended);
}

/// Adding a parameter always gives a signature with one more argument than a keyword signature,
/// and a one-argument signature from a unary one
pub proof fn law_extra_parameter_adds_argument(
    signature: SignatureView,
    new_symbol: TalkSymbol,
    symbols: SymbolNames,
)
    requires
        symbols.wf(),
    ensures
        extra_parameter_signature(signature, new_symbol, symbols).1 is Arguments,
        extra_parameter_signature(signature, new_symbol, symbols).1.len() == match signature {
            SignatureView::Unary(_) => 1,
            SignatureView::Arguments(args) => args.len() + 1,
        },
        signature is Arguments ==> extra_parameter_signature(signature, new_symbol, symbols).0
            == symbols,
{
}


/// An argument of a parsed message expression: its selector symbol, and whether a value is
/// supplied for it (a unary message is a single argument with no value)
#[derive(Clone, Copy, PartialEq, Eq, Structural, Debug)]
pub struct TalkArgument {
    pub name: TalkSymbol,
    pub has_value: bool,
}

impl TalkMessageSignature {
    /// Returns true if an argument list represents a unary message (a single argument with no value)
    pub fn arguments_are_unary(args: &Vec<TalkArgument>) -> (result: bool)
        requires
            args@.len() > 1 ==> args@[0].has_value,
        ensures
            result == (args@.len() == 1 && !args@[0].has_value),
    {
        if args.len() == 0 {
            // Empty message
            false
        } else if !args[0].has_value {
            // Unary if there's a single argument with no value
            args.len() == 1
        } else {
            // First argument has a value
            false
        }
    }

    /// Creates a signature from a list of arguments
    pub fn from_expression_arguments(args: &Vec<TalkArgument>) -> (result: TalkMessageSignature)
        ensures
            result@ == if args@.len() == 1 && !args@[0].has_value {
                SignatureView::Unary(args@[0].name)
            } else {
                SignatureView::Arguments(Seq::new(args@.len(), |i: int| args@[i].name))
            },
    {
        if args.len() == 1 && !args[0].has_value {
            Self::unary(args[0].name)
        } else {
            let mut names: Vec<TalkSymbol> = Vec::new();
            let mut i: usize = 0;
            while i < args.len()
                invariant
                    i <= args@.len(),
                    names@ == Seq::new(i as nat, |j: int| args@[j].name),
                decreases args@.len() - i,
            {
                names.push(args[i].name);
                assert(names@ =~= Seq::new((i + 1) as nat, |j: int| args@[j].name));
                i = i + 1;
            }
            Self::with_arguments(names)
        }
    }
}

} // verus!
