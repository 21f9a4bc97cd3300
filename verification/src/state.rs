use vstd::prelude::*;

use crate::orderbook::{BookView, OrderBook};
use crate::text::{lowercase_of, strings_view, to_lowercase};

verus! {

/// The symbols read from the configuration file.
#[derive(Debug, Clone)]
pub struct ConfigData {
    pub symbols: Vec<String>,
}

/// How this server runs: as the primary or as a replica of `primary_url`,
/// trading `symbols`.
#[derive(Clone)]
pub struct Config {
    pub is_primary: bool,
    pub primary_url: Option<String>,
    pub symbols: Vec<String>,
}

/// `symbol` is one of `symbols`.
pub open spec fn lists_symbol(symbols: Seq<String>, symbol: Seq<char>) -> bool {
    exists|i: int| 0 <= i < symbols.len() && (#[trigger] symbols[i])@ == symbol
}

/// Where `needle` stands in `list`, compared by content.
fn position_of(list: &Vec<String>, needle: &String) -> (r: Option<usize>)
    ensures
        match r {
            Some(i) => i < list@.len() && list@[i as int]@ == needle@,
            None => !lists_symbol(list@, needle@),
        },
{
    let mut i: usize = 0;
    while i < list.len()
        invariant
            i <= list@.len(),
            forall|j: int| 0 <= j < i ==> (#[trigger] list@[j])@ != needle@,
        decreases list@.len() - i,
    {
        if list[i] == *needle {
            return Some(i);
        }
        i = i + 1;
    }
    None
}

/// The symbols traded when the configuration file cannot be read or parsed.
pub open spec fn default_symbols() -> Seq<Seq<char>> {
    seq!["BTC"@, "ETH"@, "SOL"@, "XRP"@]
}

/// The value of the primary flag: true unless the variable is set, and then
/// whether it reads "true" in any case.
pub open spec fn primary_flag(value: Option<String>) -> bool {
    match value {
        None => true,
        Some(v) => lowercase_of(v@) == "true"@,
    }
}

impl Config {
    /// The configuration from what the environment and the configuration file
    /// gave: the primary flag variable (`None` where unset), the primary's URL,
    /// and the parsed file (`None` where it could not be read or parsed, in
    /// which case the default symbols are traded).
    pub fn from_sources(
        is_primary_var: Option<String>,
        primary_url: Option<String>,
        configured: Option<ConfigData>,
    ) -> (config: Config)
        ensures
            config.is_primary == primary_flag(is_primary_var),
            is_primary_var is None ==> config.is_primary,
            forall|v: String| is_primary_var == Some(v) ==> (config.is_primary <==> lowercase_of(v@) == "true"@),
            config.primary_url == primary_url,
            match configured {
                Some(data) => config.symbols@ == data.symbols@,
                None => strings_view(config.symbols@) == default_symbols(),
            },
    {
        let is_primary = match &is_primary_var {
            None => true,
            Some(v) => to_lowercase(v.as_str()) == "true".to_owned(),
        };
        let symbols = match configured {
            Some(data) => data.symbols,
            None => {
                let mut d: Vec<String> = Vec::new();
                d.push("BTC".to_owned());
                d.push("ETH".to_owned());
                d.push("SOL".to_owned());
                d.push("XRP".to_owned());
                assert(strings_view(d@) =~= default_symbols());
                d
            },
        };
        Config { is_primary, primary_url, symbols }
    }

    /// `symbol` is one of the configured symbols.
    pub fn is_valid_symbol(&self, symbol: &str) -> (r: bool)
        ensures
            r == lists_symbol(self.symbols@, symbol@),
            r == exists|i: int| 0 <= i < self.symbols@.len() && (#[trigger] self.symbols@[i])@ == symbol@,
    {
        let owned = symbol.to_owned();
        position_of(&self.symbols, &owned).is_some()
    }
}

/// One order book per symbol.
pub struct Engine {
    pub books: Vec<(String, OrderBook)>,
}

/// The symbols of a list of books, in order.
pub open spec fn book_symbols(books: Seq<(String, OrderBook)>) -> Seq<Seq<char>> {
    books.map_values(|e: (String, OrderBook)| e.0@)
}

/// `i` is the first place in `books` that holds the book of `symbol`.
pub open spec fn is_first_index(books: Seq<(String, OrderBook)>, symbol: Seq<char>, i: int) -> bool {
    &&& 0 <= i < books.len()
    &&& books[i].0@ == symbol
    &&& forall|j: int| 0 <= j < i ==> (#[trigger] books[j]).0@ != symbol
}

/// The first place in `books` that holds the book of `symbol`.
pub open spec fn first_index(books: Seq<(String, OrderBook)>, symbol: Seq<char>) -> int {
    choose|i: int| is_first_index(books, symbol, i)
}

/// The first place is unique.
pub proof fn lemma_first_index(books: Seq<(String, OrderBook)>, symbol: Seq<char>, i: int)
    requires
        is_first_index(books, symbol, i),
    ensures
        first_index(books, symbol) == i,
{
    let c = first_index(books, symbol);
    assert(is_first_index(books, symbol, c));
    if c < i {
        assert(books[c].0@ != symbol);
    } else if i < c {
        assert(books[i].0@ != symbol);
    }
}

/// Where the book of `symbol` is first kept in `books`.
fn find_book(books: &Vec<(String, OrderBook)>, symbol: &String) -> (r: Option<usize>)
    ensures
        match r {
            Some(i) => is_first_index(books@, symbol@, i as int),
            None => !book_symbols(books@).contains(symbol@),
        },
{
    let mut i: usize = 0;
    while i < books.len()
        invariant
            i <= books@.len(),
            forall|j: int| 0 <= j < i ==> (#[trigger] books@[j]).0@ != symbol@,
        decreases books@.len() - i,
    {
        if books[i].0 == *symbol {
            return Some(i);
        }
        i = i + 1;
    }
    proof {
        if book_symbols(books@).contains(symbol@) {
            let k = choose|k: int| 0 <= k < book_symbols(books@).len() && book_symbols(books@)[k] == symbol@;
            assert(books@[k].0@ == symbol@);
        }
    }
    None
}

impl View for Engine {
    type V = Map<Seq<char>, BookView>;

    /// The book of each symbol.
    open spec fn view(&self) -> Map<Seq<char>, BookView> {
        books_view(self.books@)
    }
}

/// The book of each symbol in a list of books; where a symbol is kept twice,
/// its first book.
pub open spec fn books_view(books: Seq<(String, OrderBook)>) -> Map<Seq<char>, BookView> {
    Map::new(
        |s: Seq<char>| book_symbols(books).contains(s),
        |s: Seq<char>| books[first_index(books, s)].1@,
    )
}

/// Replacing the book at the first place of `symbol` changes the book of
/// `symbol` and of no other symbol.
pub proof fn lemma_replace_book(books: Seq<(String, OrderBook)>, symbol: Seq<char>, i: int, book: OrderBook)
    requires
        is_first_index(books, symbol, i),
    ensures
        books_view(books.update(i, (books[i].0, book))) == books_view(books).insert(symbol, book@),
        book_symbols(books.update(i, (books[i].0, book))) == book_symbols(books),
{
    let after = books.update(i, (books[i].0, book));
    assert(book_symbols(after) =~= book_symbols(books));
    lemma_first_index(books, symbol, i);
    lemma_first_index(after, symbol, i);
    assert forall|s: Seq<char>| #[trigger] book_symbols(books).contains(s) && s != symbol implies
        books_view(after)[s] == books_view(books)[s] by {
        let k0 = choose|k: int| 0 <= k < book_symbols(books).len() && book_symbols(books)[k] == s;
        lemma_has_first_index(books, s, k0);
        let k = choose|k: int| is_first_index(books, s, k);
        lemma_first_index(books, s, k);
        assert(is_first_index(after, s, k));
        lemma_first_index(after, s, k);
    }
    assert(book_symbols(books).contains(symbol)) by {
        assert(book_symbols(books)[i] == symbol);
    }
    assert(books_view(after) =~= books_view(books).insert(symbol, book@));
}

/// An empty book, as a view.
pub open spec fn empty_book() -> BookView {
    BookView { bids: Map::empty(), asks: Map::empty() }
}

impl Engine {
    /// An engine with one empty book for each of `symbols`; a symbol listed
    /// twice gets one book.
    pub fn new(symbols: &[String]) -> (engine: Self)
        ensures
            book_symbols(engine.books@).no_duplicates(),
            forall|s: Seq<char>| #[trigger] engine@.contains_key(s) <==> lists_symbol(symbols@, s),
            forall|s: Seq<char>| #[trigger] engine@.contains_key(s) ==> engine@[s] == empty_book(),
            forall|i: int| 0 <= i < symbols@.len() ==> engine@.contains_key(#[trigger] symbols@[i]@),
            forall|s: Seq<char>|
                #[trigger] engine@.contains_key(s) ==> exists|i: int| 0 <= i < symbols@.len() && symbols@[i]@ == s,
    {
        let mut books: Vec<(String, OrderBook)> = Vec::new();
        let n = symbols.len();
        for i in 0..n
            invariant
                n == symbols@.len(),
                book_symbols(books@).no_duplicates(),
                forall|s: Seq<char>|
                    #[trigger] book_symbols(books@).contains(s) <==> exists|j: int|
                        0 <= j < i && (#[trigger] symbols@[j])@ == s,
                forall|k: int| 0 <= k < books@.len() ==> (#[trigger] books@[k]).1@ == empty_book(),
        {
            let ghost old_books = books@;
            let found = find_book(&books, &symbols[i]);
            if found.is_none() {
                let book = OrderBook::new();
                books.push((symbols[i].clone(), book));
                proof {
                    assert(book_symbols(books@) =~= book_symbols(old_books).push(symbols@[i as int]@));
                }
            }
            proof {
                if let Some(k) = found {
                    assert(book_symbols(old_books)[k as int] == symbols@[i as int]@);
                } else {
                    assert(book_symbols(books@)[books@.len() - 1] == symbols@[i as int]@);
                }
                assert forall|s: Seq<char>|
                    #[trigger] book_symbols(books@).contains(s) <==> exists|j: int|
                        0 <= j < i + 1 && (#[trigger] symbols@[j])@ == s by {
                    if book_symbols(books@).contains(s) && s != symbols@[i as int]@ {
                        assert(book_symbols(old_books).contains(s));
                    }
                    if exists|j: int| 0 <= j < i + 1 && (#[trigger] symbols@[j])@ == s {
                        let j = choose|j: int| 0 <= j < i + 1 && (#[trigger] symbols@[j])@ == s;
                        if j < i {
                            assert(book_symbols(old_books).contains(s));
                            let k = choose|k: int| 0 <= k < book_symbols(old_books).len() && book_symbols(old_books)[k] == s;
                            assert(book_symbols(books@)[k] == s);
                        } else if book_symbols(old_books).contains(s) {
                            let k = choose|k: int| 0 <= k < book_symbols(old_books).len() && book_symbols(old_books)[k] == s;
                            assert(book_symbols(books@)[k] == s);
                        } else {
                            assert(book_symbols(books@)[books@.len() - 1] == s);
                        }
                    }
                }
            }
        }
        let engine = Engine { books };
        proof {
            assert forall|s: Seq<char>| #[trigger] engine@.contains_key(s) <==> lists_symbol(symbols@, s) by {
                if lists_symbol(symbols@, s) {
                    let j = choose|j: int| 0 <= j < symbols@.len() && (#[trigger] symbols@[j])@ == s;
                    assert(exists|j: int| 0 <= j < n && (#[trigger] symbols@[j])@ == s);
                }
            }
            assert forall|s: Seq<char>| #[trigger] engine@.contains_key(s) implies engine@[s] == empty_book() by {
                let k = choose|k: int| 0 <= k < book_symbols(engine.books@).len() && book_symbols(engine.books@)[k] == s;
                assert(engine.books@[k].0@ == s);
                let c = first_index(engine.books@, s);
                assert(exists|i: int| is_first_index(engine.books@, s, i)) by {
                    lemma_has_first_index(engine.books@, s, k);
                }
                assert(is_first_index(engine.books@, s, c));
            }
        }
        engine
    }

    /// The book of `symbol`, if the engine has one.
    pub fn get_orderbook(&self, symbol: &str) -> (r: Option<&OrderBook>)
        ensures
            match r {
                Some(book) => self@.contains_key(symbol@) && book@ == self@[symbol@],
                None => !self@.contains_key(symbol@),
            },
    {
        let owned = symbol.to_owned();
        match find_book(&self.books, &owned) {
            Some(i) => {
                proof {
                    lemma_first_index(self.books@, symbol@, i as int);
                    assert(book_symbols(self.books@)[i as int] == symbol@);
                }
                Some(&self.books[i].1)
            },
            None => None,
        }
    }

    /// The book of `symbol`, if the engine has one, to be changed in place;
    /// the books of the other symbols stay as they are.
    pub fn get_orderbook_mut(&mut self, symbol: &str) -> (r: Option<&mut OrderBook>)
        ensures
            match r {
                Some(book) => {
                    &&& old(self)@.contains_key(symbol@)
                    &&& (*book)@ == old(self)@[symbol@]
                    &&& final(self)@ == old(self)@.insert(symbol@, (*final(book))@)
                    &&& book_symbols(final(self).books@) == book_symbols(old(self).books@)
                },
                None => {
                    &&& !old(self)@.contains_key(symbol@)
                    &&& *final(self) == *old(self)
                },
            },
    {
        let owned = symbol.to_owned();
        match find_book(&self.books, &owned) {
            Some(i) => {
                proof {
                    lemma_first_index(self.books@, symbol@, i as int);
                    assert(book_symbols(self.books@)[i as int] == symbol@);
                }
                let ghost old_books = self.books@;
                let entry = &mut self.books[i];
                let book = &mut entry.1;
                proof {
                    lemma_replace_book(old_books, symbol@, i as int, *final(book));
                }
                Some(book)
            },
            None => None,
        }
    }
}

/// A symbol that is kept somewhere has a first place.
pub proof fn lemma_has_first_index(books: Seq<(String, OrderBook)>, symbol: Seq<char>, k: int)
    requires
        0 <= k < books.len(),
        books[k].0@ == symbol,
    ensures
        exists|i: int| is_first_index(books, symbol, i),
    decreases k,
{
    if forall|j: int| 0 <= j < k ==> (#[trigger] books[j]).0@ != symbol {
        assert(is_first_index(books, symbol, k));
    } else {
        let j = choose|j: int| 0 <= j < k && (#[trigger] books[j]).0@ == symbol;
        lemma_has_first_index(books, symbol, j);
    }
}

} // verus!
