use vstd::prelude::*;

verus! {

/// A unique identifier for a FloTalk symbol
#[derive(Clone, Copy, PartialEq, Eq, Structural, Hash, PartialOrd, Ord, Debug)]
pub struct TalkSymbol(pub usize);

/// The character for a single decimal digit
pub open spec fn digit_char(d: nat) -> char {
    if d == 0 { '0' }
    else if d == 1 { '1' }
    else if d == 2 { '2' }
    else if d == 3 { '3' }
    else if d == 4 { '4' }
    else if d == 5 { '5' }
    else if d == 6 { '6' }
    else if d == 7 { '7' }
    else if d == 8 { '8' }
    else { '9' }
}

/// The decimal representation of a natural number (most significant digit first)
pub open spec fn decimal(n: nat) -> Seq<char>
    decreases n,
{
    if n < 10 {
        seq![digit_char(n)]
    } else {
        decimal(n / 10).push(digit_char(n % 10))
    }
}

/// The name given to an unnamed symbol with the specified ID: ` <UNNAMED#id> `
pub open spec fn unnamed_name(id: nat) -> Seq<char> {
    seq![' ', '<', 'U', 'N', 'N', 'A', 'M', 'E', 'D', '#'] + decimal(id) + seq!['>', ' ']
}

fn digit_to_char(d: usize) -> (c: char)
    requires
        d < 10,
    ensures
        c == digit_char(d as nat),
{
    if d == 0 { '0' }
    else if d == 1 { '1' }
    else if d == 2 { '2' }
    else if d == 3 { '3' }
    else if d == 4 { '4' }
    else if d == 5 { '5' }
    else if d == 6 { '6' }
    else if d == 7 { '7' }
    else if d == 8 { '8' }
    else { '9' }
}

/// Appends the decimal representation of `n` to `out`
fn push_decimal(n: usize, out: &mut Vec<char>)
    ensures
        final(out)@ == old(out)@ + decimal(n as nat),
    decreases n,
{
    if n < 10 {
        out.push(digit_to_char(n));
    } else {
        push_decimal(n / 10, out);
        out.push(digit_to_char(n % 10));
        assert(out@ =~= old(out)@ + decimal(n as nat));
    }
}


/// True if a character can appear in a binary operator selector (such as `+` or `<=`)
pub open spec fn spec_is_binary_character(chr: char) -> bool {
    chr == '!' || chr == '%' || chr == '&' || chr == '*' || chr == '+' || chr == ','
        || chr == '/' || chr == '<' || chr == '=' || chr == '>' || chr == '?' || chr == '@'
        || chr == '\\' || chr == '~' || chr == '|' || chr == '-'
}

/// True if a character can appear in a binary operator selector (such as `+` or `<=`)
pub fn is_binary_character(chr: char) -> (result: bool)
    ensures
        result == spec_is_binary_character(chr),
{
    chr == '!' || chr == '%' || chr == '&' || chr == '*' || chr == '+' || chr == ','
        || chr == '/' || chr == '<' || chr == '=' || chr == '>' || chr == '?' || chr == '@'
        || chr == '\\' || chr == '~' || chr == '|' || chr == '-'
}

/// The abstract state of a symbol registry: the name of every symbol, indexed by symbol ID,
/// and whether or not the symbol can be found by its name (unnamed symbols cannot)
pub struct SymbolNames {
    pub names: Seq<Seq<char>>,
    pub named: Seq<bool>,
}

impl SymbolNames {
    /// The number of symbols that have been allocated
    pub open spec fn len(self) -> nat {
        self.names.len()
    }

    /// True if `id` identifies an allocated symbol
    pub open spec fn contains(self, id: int) -> bool {
        0 <= id < self.names.len()
    }

    /// The registry is consistent: every named symbol has a different name and every unnamed
    /// symbol has the generated ` <UNNAMED#id> ` name
    pub open spec fn wf(self) -> bool {
        &&& self.names.len() == self.named.len()
        &&& forall|i: int, j: int|
            #![trigger self.names[i], self.names[j]]
            0 <= i < self.names.len() && 0 <= j < self.names.len() && i != j && self.named[i]
                && self.named[j] ==> self.names[i] != self.names[j]
        &&& forall|i: int|
            #![trigger self.named[i]]
            0 <= i < self.names.len() && !self.named[i] ==> self.names[i] == unnamed_name(
                i as nat,
            )
    }

    /// True if `name` belongs to a named symbol
    pub open spec fn has_name(self, name: Seq<char>) -> bool {
        exists|i: int| 0 <= i < self.names.len() && self.named[i] && #[trigger] self.names[i] == name
    }

    /// The ID of the named symbol with the name `name` (meaningful when `has_name(name)`)
    pub open spec fn id_for_name(self, name: Seq<char>) -> int {
        choose|i: int| 0 <= i < self.names.len() && self.named[i] && #[trigger] self.names[i] == name
    }

    /// The result of converting a name to a symbol: the existing symbol with that name, or
    /// a newly allocated symbol with the next ID
    pub open spec fn intern(self, name: Seq<char>) -> (SymbolNames, nat) {
        if self.has_name(name) {
            (self, self.id_for_name(name) as nat)
        } else {
            (SymbolNames { names: self.names.push(name), named: self.named.push(true) }, self.len())
        }
    }

    /// The result of allocating an unnamed symbol
    pub open spec fn add_unnamed(self) -> (SymbolNames, nat) {
        (
            SymbolNames {
                names: self.names.push(unnamed_name(self.len())),
                named: self.named.push(false),
            },
            self.len(),
        )
    }

    /// True if the name of a symbol ends with `:`
    pub open spec fn is_keyword(self, id: int) -> bool {
        self.names[id].len() > 0 && self.names[id].last() == ':'
    }

    /// True if the name of a symbol starts with a binary operator character
    pub open spec fn is_binary(self, id: int) -> bool {
        self.names[id].len() > 0 && spec_is_binary_character(self.names[id][0])
    }

    /// The result of converting a symbol to its non-keyword form (`foo:` to `foo`)
    pub open spec fn keyword_to_symbol(self, id: int) -> (SymbolNames, nat) {
        if self.is_keyword(id) {
            self.intern(self.names[id].drop_last())
        } else {
            (self, id as nat)
        }
    }
}

///
/// The table of symbol names: maps names to symbols and symbols back to their names
///
/// Names are kept for the life of the registry, so a symbol always keeps the same name and the
/// same name always maps to the same symbol.
///
pub struct TalkSymbolRegistry {
    /// The name of each symbol, indexed by ID
    names: Vec<Vec<char>>,

    /// Whether or not each symbol can be looked up by its name
    named: Vec<bool>,
}

impl View for TalkSymbolRegistry {
    type V = SymbolNames;

    closed spec fn view(&self) -> SymbolNames {
        SymbolNames {
            names: Seq::new(self.names@.len(), |i: int| self.names@[i]@),
            named: self.named@,
        }
    }
}

/// True if two character vectors hold the same characters
fn chars_equal(a: &Vec<char>, b: &Vec<char>) -> (result: bool)
    ensures
        result == (a@ == b@),
{
    if a.len() != b.len() {
        return false;
    }
    let mut i: usize = 0;
    while i < a.len()
        invariant
            a@.len() == b@.len(),
            i <= a@.len(),
            forall|j: int| 0 <= j < i ==> a@[j] == b@[j],
        decreases a@.len() - i,
    {
        if a[i] != b[i] {
            return false;
        }
        i = i + 1;
    }
    assert(a@ =~= b@);
    true
}

/// Converts a string slice into a vector of its characters
pub fn str_chars(text: &str) -> (result: Vec<char>)
    ensures
        result@ == text@,
{
    let mut result: Vec<char> = Vec::new();
    for chr in it: text.chars()
        invariant
            it.seq() == text@,
            result@ == it.seq().take(it.index() as int),
    {
        assert(it.seq().take(it.index() + 1) =~= result@.push(chr));
        result.push(chr);
    }
    result
}

impl TalkSymbolRegistry {
    /// Creates a registry with no symbols in it
    pub fn new() -> (result: TalkSymbolRegistry)
        ensures
            result@.wf(),
            result@.len() == 0,
    {
        let result = TalkSymbolRegistry { names: Vec::new(), named: Vec::new() };
        assert(result@.names =~= Seq::<Seq<char>>::empty());
        result
    }

    /// Number of symbols (named and unnamed) held by this registry
    pub fn len(&self) -> (result: usize)
        ensures
            result == self@.len(),
    {
        self.names.len()
    }

    /// Finds the named symbol with the specified name
    fn find_named(&self, name: &Vec<char>) -> (result: Option<usize>)
        requires
            self@.wf(),
        ensures
            match result {
                Some(id) => self@.has_name(name@) && id == self@.id_for_name(name@),
                None => !self@.has_name(name@),
            },
    {
        let mut i: usize = 0;
        while i < self.names.len()
            invariant
                self@.wf(),
                i <= self.names@.len(),
                self.names@.len() == self.named@.len(),
                forall|j: int| 0 <= j < i && self.named@[j] ==> self.names@[j]@ != name@,
            decreases self.names@.len() - i,
        {
            if self.named[i] && chars_equal(&self.names[i], name) {
                assert(self@.names[i as int] == name@);
                let ghost k = self@.id_for_name(name@);
                assert(self@.names[k] == name@);
                return Some(i);
            }
            i = i + 1;
        }
        assert forall|j: int| 0 <= j < self@.names.len() && self@.named[j] implies #[trigger] self@.names[j] != name@ by {
            assert(self@.names[j] == self.names@[j]@);
        }
        None
    }

    /// Returns the symbol with the specified name, allocating a new symbol if the name has not
    /// been seen before
    pub fn symbol_for_chars(&mut self, name: Vec<char>) -> (result: TalkSymbol)
        requires
            old(self)@.wf(),
        ensures
            final(self)@.wf(),
            (final(self)@, result.0 as nat) == old(self)@.intern(name@),
    {
        match self.find_named(&name) {
            Some(id) => TalkSymbol(id),
            None => {
                let id = self.names.len();
                let ghost old_view = self@;
                self.names.push(name);
                self.named.push(true);
                assert(self@.names =~= old_view.names.push(name@));
                assert(self@.named =~= old_view.named.push(true));
                TalkSymbol(id)
            },
        }
    }

    /// Returns the symbol with the specified name, allocating a new symbol if the name has not
    /// been seen before
    pub fn symbol_for(&mut self, name: &str) -> (result: TalkSymbol)
        requires
            old(self)@.wf(),
        ensures
            final(self)@.wf(),
            (final(self)@, result.0 as nat) == old(self)@.intern(name@),
    {
        self.symbol_for_chars(str_chars(name))
    }
}


/// Appends a character to the end of a string (`String::push`)
#[verifier::external_body]
fn string_push(text: &mut String, chr: char)
    ensures
        final(text)@ == old(text)@.push(chr),
{
    text.push(chr)
}

/// Creates a string holding the characters of a vector
pub fn chars_to_string(chars: &Vec<char>) -> (result: String)
    ensures
        result@ == chars@,
{
    let mut result = String::new();
    let mut i: usize = 0;
    while i < chars.len()
        invariant
            i <= chars@.len(),
            result@ == chars@.take(i as int),
        decreases chars@.len() - i,
    {
        string_push(&mut result, chars[i]);
        assert(result@ =~= chars@.take(i + 1));
        i = i + 1;
    }
    assert(chars@.take(chars@.len() as int) =~= chars@);
    result
}

impl TalkSymbol {
    ///
    /// Creates an 'unnamed' symbol, which cannot be returned by `symbol_for()`
    ///
    /// The name of an unnamed symbol is ` <UNNAMED#x> `, where x is its ID. Spaces are usually
    /// not allowed in symbol names, and `symbol_for(" <UNNAMED#x> ")` returns a different symbol.
    ///
    pub fn new_unnamed(registry: &mut TalkSymbolRegistry) -> (result: TalkSymbol)
        requires
            old(registry)@.wf(),
        ensures
            final(registry)@.wf(),
            (final(registry)@, result.0 as nat) == old(registry)@.add_unnamed(),
    {
        let id = registry.names.len();
        let mut fake_name: Vec<char> = Vec::new();
        fake_name.push(' ');
        fake_name.push('<');
        fake_name.push('U');
        fake_name.push('N');
        fake_name.push('N');
        fake_name.push('A');
        fake_name.push('M');
        fake_name.push('E');
        fake_name.push('D');
        fake_name.push('#');
        push_decimal(id, &mut fake_name);
        fake_name.push('>');
        fake_name.push(' ');
        assert(fake_name@ =~= unnamed_name(id as nat));

        let ghost old_view = registry@;
        registry.names.push(fake_name);
        registry.named.push(false);
        assert(registry@.names =~= old_view.names.push(unnamed_name(id as nat)));
        assert(registry@.named =~= old_view.named.push(false));
        TalkSymbol(id)
    }

    /// The characters of the name of this symbol
    pub fn name_chars<'a>(&self, registry: &'a TalkSymbolRegistry) -> (result: &'a Vec<char>)
        requires
            registry@.contains(self.0 as int),
        ensures
            result@ == registry@.names[self.0 as int],
    {
        &registry.names[self.0]
    }

    /// Returns the name of this symbol
    pub fn name(&self, registry: &TalkSymbolRegistry) -> (result: String)
        requires
            registry@.contains(self.0 as int),
        ensures
            result@ == registry@.names[self.0 as int],
    {
        chars_to_string(self.name_chars(registry))
    }

    /// The ID number for this symbol
    pub fn id(&self) -> (result: usize)
        ensures
            result == self.0,
    {
        self.0
    }

    /// True if this is a keyword symbol (eg: `foo:`), or false if it's not (eg: 'foo')
    pub fn is_keyword(&self, registry: &TalkSymbolRegistry) -> (result: bool)
        requires
            registry@.contains(self.0 as int),
        ensures
            result == registry@.is_keyword(self.0 as int),
    {
        let name = self.name_chars(registry);
        name.len() > 0 && name[name.len() - 1] == ':'
    }

    /// If this is a keyword, returns the non-keyword version of this symbol (ie, turns 'foo:'
    /// into 'foo'. 'foo' remains as 'foo')
    pub fn keyword_to_symbol(&self, registry: &mut TalkSymbolRegistry) -> (result: TalkSymbol)
        requires
            old(registry)@.wf(),
            old(registry)@.contains(self.0 as int),
        ensures
            final(registry)@.wf(),
            (final(registry)@, result.0 as nat) == old(registry)@.keyword_to_symbol(self.0 as int),
    {
        if self.is_keyword(registry) {
            // Remove the ':' from the end of the name
            let mut non_keyword = self.name_chars(registry).clone();
            non_keyword.pop();
            registry.symbol_for_chars(non_keyword)
        } else {
            *self
        }
    }

    /// True if this is a binary operator symbol (eg: `=`, `+` etc)
    pub fn is_binary(&self, registry: &TalkSymbolRegistry) -> (result: bool)
        requires
            registry@.contains(self.0 as int),
        ensures
            result == registry@.is_binary(self.0 as int),
    {
        let name = self.name_chars(registry);
        if name.len() > 0 {
            is_binary_character(name[0])
        } else {
            false
        }
    }
}


/// Interning a name gives a symbol that carries that name, and the registry stays consistent
pub proof fn law_intern_names_symbol(names: SymbolNames, name: Seq<char>)
    requires
        names.wf(),
    ensures
        names.intern(name).0.wf(),
        names.intern(name).0.contains(names.intern(name).1 as int),
        names.intern(name).0.names[names.intern(name).1 as int] == name,
        names.intern(name).0.named[names.intern(name).1 as int],
{
    if names.has_name(name) {
        let k = names.id_for_name(name);
        assert(names.names[k] == name);
    }
}

/// Converting the same name twice gives the same symbol, and the second conversion changes nothing
pub proof fn law_intern_idempotent(names: SymbolNames, name: Seq<char>)
    requires
        names.wf(),
    ensures
        names.intern(name).0.intern(name) == names.intern(name),
{
    law_intern_names_symbol(names, name);
    let (after, id) = names.intern(name);
    assert(after.has_name(name));
    let k = after.id_for_name(name);
    assert(after.names[k] == name && after.named[k]);
    assert(k == id as int);
}

/// Two names give the same symbol exactly when they are the same name
pub proof fn law_intern_distinct_names(names: SymbolNames, first: Seq<char>, second: Seq<char>)
    requires
        names.wf(),
    ensures
        (names.intern(first).0.intern(second).1 == names.intern(first).1) <==> (first == second),
{
    law_intern_names_symbol(names, first);
    let (after, id) = names.intern(first);
    law_intern_names_symbol(after, second);
    let (after2, id2) = after.intern(second);
    if first == second {
        law_intern_idempotent(names, first);
    }
    if id2 == id {
        assert(after2.names[id2 as int] == second);
        assert(after2.names[id as int] == after.names[id as int]);
    }
}

/// Symbols are never renamed or removed: interning a name or allocating an unnamed symbol only
/// ever adds new symbols after the existing ones
pub proof fn law_symbols_keep_their_names(names: SymbolNames, name: Seq<char>)
    requires
        names.wf(),
    ensures
        names.intern(name).0.names.take(names.len() as int) == names.names,
        names.intern(name).0.named.take(names.len() as int) == names.named,
        names.add_unnamed().0.names.take(names.len() as int) == names.names,
        names.add_unnamed().0.named.take(names.len() as int) == names.named,
        names.add_unnamed().0.wf(),
{
    assert(names.names.push(name).take(names.len() as int) =~= names.names);
    assert(names.named.push(true).take(names.len() as int) =~= names.named);
    assert(names.names.push(unnamed_name(names.len())).take(names.len() as int) =~= names.names);
    assert(names.named.push(false).take(names.len() as int) =~= names.named);
}

/// An unnamed symbol is never the result of converting a name to a symbol
pub proof fn law_unnamed_never_interned(names: SymbolNames, name: Seq<char>)
    requires
        names.wf(),
    ensures
        names.add_unnamed().0.intern(name).1 != names.add_unnamed().1,
{
    let (after, id) = names.add_unnamed();
    law_symbols_keep_their_names(names, name);
    law_intern_names_symbol(after, name);
    let (after2, id2) = after.intern(name);
    if id2 == id {
        assert(after2.named[id as int] == after.named[id as int]);
        assert(!after.named[id as int]);
    }
}

/// Removing the ':' from a keyword symbol gives the symbol for the rest of its name, and a symbol
/// that is not a keyword is returned unchanged
pub proof fn law_keyword_to_symbol(names: SymbolNames, id: int)
    requires
        names.wf(),
        names.contains(id),
    ensures
        names.is_keyword(id) ==> names.keyword_to_symbol(id).0.names[names.keyword_to_symbol(
            id,
        ).1 as int] + seq![':'] == names.names[id],
        !names.is_keyword(id) ==> names.keyword_to_symbol(id) == (names, id as nat),
{
    if names.is_keyword(id) {
        let base = names.names[id].drop_last();
        law_intern_names_symbol(names, base);
        assert(base + seq![':'] =~= names.names[id]);
    }
}

/// Symbols are numbered in the order they are created: a symbol made for a new name, or a new
/// unnamed symbol, gets an ID above the ID of every symbol that already exists
pub proof fn law_new_symbols_come_after(names: SymbolNames, name: Seq<char>, existing: int)
    requires
        names.wf(),
        names.contains(existing),
    ensures
        !names.has_name(name) ==> existing < names.intern(name).1,
        existing < names.add_unnamed().1,
        names.has_name(name) ==> names.contains(names.intern(name).1 as int),
{
    if names.has_name(name) {
        let k = names.id_for_name(name);
        assert(names.names[k] == name);
    }
}

/// Binary operator characters are ASCII punctuation: no letter, digit, white space, `:`, `_`,
/// quote or bracket is one, so a name that starts with a letter or a digit is never a binary
/// operator
pub proof fn law_binary_characters_are_punctuation(chr: char)
    ensures
        spec_is_binary_character(chr) ==> (chr as u32) < 128,
        ('a' <= chr && chr <= 'z') || ('A' <= chr && chr <= 'Z') || ('0' <= chr && chr <= '9')
            ==> !spec_is_binary_character(chr),
        chr == ' ' || chr == '\t' || chr == '\n' || chr == ':' || chr == '_' || chr == '\'' || chr == '"'
            || chr == '(' || chr == ')' || chr == '[' || chr == ']' || chr == '{' || chr == '}'
            || chr == '.' || chr == ';' || chr == '#' || chr == '$' || chr == '^'
            ==> !spec_is_binary_character(chr),
{
}

/// A symbol whose name starts with a letter is not a binary operator
pub proof fn law_alphabetic_symbols_are_not_binary(names: SymbolNames, id: int)
    requires
        0 <= id < names.len(),
        names.names[id].len() > 0,
        ('a' <= names.names[id][0] && names.names[id][0] <= 'z') || ('A' <= names.names[id][0] && names.names[id][0] <= 'Z'),
    ensures
        !names.is_binary(id),
{
    law_binary_characters_are_punctuation(names.names[id][0]);
}

} // verus!
