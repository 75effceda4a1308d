//! The symbol table: an immutable mapping from a single character to the
//! combining-glyph string it selects.
//!
//! The table is built once from a dataset of `(key, symbol)` records and is
//! never mutated afterwards; every operation takes the table by shared
//! reference, so a lookup's result is determined by the table's contents and
//! the queried character alone. Duplicate keys in the dataset are rejected
//! outright (fail-fast policy): a duplicate indicates a corrupt dataset, not
//! bad user input.

use crate::split::find_first;
use crate::split::find_char;
use crate::split::split_on;
use vstd::prelude::*;

verus! {

/// Mathematical contents of a table given its key and symbol columns:
/// the map sending each key to its symbol. Later records win, but a
/// well-formed table has no repeated keys, so the order never matters.
pub open spec fn entries_map(keys: Seq<char>, syms: Seq<Seq<char>>) -> Map<char, Seq<char>>
    decreases keys.len(),
{
    if keys.len() == 0 || keys.len() != syms.len() {
        Map::empty()
    } else {
        entries_map(keys.drop_last(), syms.drop_last()).insert(keys.last(), syms.last())
    }
}

/// The key column of a dataset.
pub open spec fn pair_keys(pairs: Seq<(char, String)>) -> Seq<char> {
    pairs.map_values(|p: (char, String)| p.0)
}

/// The symbol column of a dataset, as character sequences.
pub open spec fn pair_syms(pairs: Seq<(char, String)>) -> Seq<Seq<char>> {
    pairs.map_values(|p: (char, String)| p.1@)
}

/// No key occurs twice in the dataset.
pub open spec fn distinct_keys(pairs: Seq<(char, String)>) -> bool {
    forall|i: int, j: int| 0 <= i < j < pairs.len() ==> pairs[i].0 != pairs[j].0
}

/// The mapping a dataset denotes.
pub open spec fn dataset_map(pairs: Seq<(char, String)>) -> Map<char, Seq<char>> {
    entries_map(pair_keys(pairs), pair_syms(pairs))
}

/// What a lookup of `c` in the mapping `m` yields.
pub open spec fn spec_lookup(m: Map<char, Seq<char>>, c: char) -> Option<Seq<char>> {
    if m.contains_key(c) {
        Some(m[c])
    } else {
        None
    }
}

/// The same character appeared as a key in two dataset records.
#[derive(Debug)]
pub struct DuplicateKeyError {
    pub key: char,
}

/// An immutable mapping from a single character to a combining-glyph string.
///
/// Keys are stored as entered; no case normalization happens here. Callers
/// that want lowercase-keyed lookups must lowercase before calling, which is
/// also the contract of the generator.
pub struct SymbolTable {
    keys: Vec<char>,
    syms: Vec<String>,
}

impl View for SymbolTable {
    type V = Map<char, Seq<char>>;

    closed spec fn view(&self) -> Map<char, Seq<char>> {
        entries_map(self.keys@, self.syms@.map_values(|s: String| s@))
    }
}

impl SymbolTable {
    /// The two columns line up and no key repeats.
    pub closed spec fn wf(&self) -> bool {
        &&& self.keys@.len() == self.syms@.len()
        &&& forall|i: int, j: int|
            0 <= i < j < self.keys@.len() ==> self.keys@[i] != self.keys@[j]
    }

    /// Builds the table from `(key, symbol)` records. Fails on the first key
    /// that repeats an earlier one; otherwise the table holds exactly the
    /// mapping the records denote.
    pub fn load(pairs: &Vec<(char, String)>) -> (r: Result<SymbolTable, DuplicateKeyError>)
        ensures
            match r {
                Ok(t) => t.wf() && t@ == dataset_map(pairs@) && distinct_keys(pairs@),
                Err(e) => !distinct_keys(pairs@) && exists|i: int, j: int|
                    0 <= i < j < pairs@.len() && pairs@[i].0 == e.key && pairs@[j].0 == e.key,
            },
    {
        let mut keys: Vec<char> = Vec::new();
        let mut syms: Vec<String> = Vec::new();
        let n = pairs.len();
        let mut i: usize = 0;
        while i < n
            invariant
                i <= n,
                n == pairs@.len(),
                keys@.len() == i,
                syms@.len() == i,
                keys@ == pair_keys(pairs@.take(i as int)),
                syms@.map_values(|s: String| s@) == pair_syms(pairs@.take(i as int)),
                forall|p: int, q: int| 0 <= p < q < i ==> pairs@[p].0 != pairs@[q].0,
            decreases n - i,
        {
            let p = &pairs[i];
            let c = p.0;
            let mut j: usize = 0;
            while j < i
                invariant
                    j <= i,
                    i < n,
                    n == pairs@.len(),
                    keys@.len() == i,
                    keys@ == pair_keys(pairs@.take(i as int)),
                    c == pairs@[i as int].0,
                    forall|q: int| 0 <= q < j ==> pairs@[q].0 != c,
                decreases i - j,
            {
                if keys[j] == c {
                    proof {
                        assert(pairs@[j as int].0 == c);
                    }
                    return Err(DuplicateKeyError { key: c });
                }
                j += 1;
            }
            let sym = p.1.clone();
            keys.push(c);
            syms.push(sym);
            proof {
                assert(pairs@.take(i + 1) =~= pairs@.take(i as int).push(pairs@[i as int]));
                assert(pair_keys(pairs@.take(i + 1)) =~= pair_keys(pairs@.take(i as int)).push(
                    pairs@[i as int].0,
                ));
                assert(pair_syms(pairs@.take(i + 1)) =~= pair_syms(pairs@.take(i as int)).push(
                    pairs@[i as int].1@,
                ));
                assert(syms@.map_values(|s: String| s@) =~= pair_syms(pairs@.take(i + 1)));
            }
            i += 1;
        }
        proof {
            assert(pairs@.take(n as int) =~= pairs@);
        }
        Ok(SymbolTable { keys, syms })
    }

    /// Returns the symbol for `c` if the table has an entry for it, else
    /// nothing. Takes the character as given: no case normalization.
    pub fn lookup(&self, c: char) -> (r: Option<&String>)
        requires
            self.wf(),
        ensures
            (match r {
                Some(sym) => Some(sym@),
                None => None::<Seq<char>>,
            }) == spec_lookup(self@, c),
    {
        let ghost syms_view = self.syms@.map_values(|s: String| s@);
        let n = self.keys.len();
        let mut i: usize = 0;
        while i < n
            invariant
                i <= n,
                self.wf(),
                n == self.keys@.len(),
                forall|j: int| 0 <= j < i ==> self.keys@[j] != c,
            decreases n - i,
        {
            if self.keys[i] == c {
                proof {
                    lemma_entries_map_at(self.keys@, self.syms@.map_values(|s: String| s@), i as int);
                }
                return Some(&self.syms[i]);
            }
            i += 1;
        }
        proof {
            lemma_entries_map_dom(self.keys@, self.syms@.map_values(|s: String| s@), c);
        }
        None
    }

    /// Existence check used for validation warnings only; never blocks input.
    pub fn contains(&self, c: char) -> (r: bool)
        requires
            self.wf(),
        ensures
            r == self@.contains_key(c),
    {
        self.lookup(c).is_some()
    }

    /// The overlay characters with no table entry, in input order, one per
    /// occurrence: the characters a caller should warn about.
    pub fn unsupported_chars(&self, overlay: &str) -> (r: Vec<char>)
        requires
            self.wf(),
        ensures
            r@ == spec_unsupported(overlay@, self@),
    {
        let mut out: Vec<char> = Vec::new();
        let n = overlay.unicode_len();
        proof {
            assert(overlay@.skip(0) =~= overlay@);
            assert(out@ + spec_unsupported(overlay@, self@) =~= spec_unsupported(overlay@, self@));
        }
        let mut i: usize = 0;
        while i < n
            invariant
                i <= n,
                self.wf(),
                n == overlay@.len(),
                out@ + spec_unsupported(overlay@.skip(i as int), self@) == spec_unsupported(
                    overlay@,
                    self@,
                ),
            decreases n - i,
        {
            let c = overlay.get_char(i);
            proof {
                assert(overlay@.skip(i as int)[0] == c);
                assert(overlay@.skip(i as int).drop_first() =~= overlay@.skip(i + 1));
            }
            if !self.contains(c) {
                out.push(c);
                proof {
                    assert(out@ + spec_unsupported(overlay@.skip(i + 1), self@) =~= spec_unsupported(
                        overlay@,
                        self@,
                    ));
                }
            } else {
                proof {
                    assert(out@ + spec_unsupported(overlay@.skip(i + 1), self@) =~= spec_unsupported(
                        overlay@,
                        self@,
                    ));
                }
            }
            i += 1;
        }
        proof {
            assert(overlay@.skip(n as int) =~= Seq::<char>::empty());
            assert(out@ + spec_unsupported(overlay@.skip(n as int), self@) =~= out@);
        }
        out
    }
}

/// The overlay characters without a table entry, in order, duplicates kept.
pub open spec fn spec_unsupported(s: Seq<char>, m: Map<char, Seq<char>>) -> Seq<char>
    decreases s.len(),
{
    if s.len() == 0 {
        Seq::empty()
    } else {
        (if m.contains_key(s[0]) {
            Seq::<char>::empty()
        } else {
            seq![s[0]]
        }) + spec_unsupported(s.drop_first(), m)
    }
}

/// Two lookups of the same character on the same table always agree:
/// `lookup`'s contract makes its result a function of the table's contents
/// and the character alone, and no operation ever changes a table's
/// contents, so no interleaved call can disturb the answer.
pub proof fn lemma_lookup_deterministic(
    m: Map<char, Seq<char>>,
    c: char,
    r1: Option<Seq<char>>,
    r2: Option<Seq<char>>,
)
    requires
        r1 == spec_lookup(m, c),
        r2 == spec_lookup(m, c),
    ensures
        r1 == r2,
{
}

/// A dataset line is either blank or a key character, a comma, and the
/// symbol: the rest of the line, commas and all.
pub open spec fn line_ok(l: Seq<char>) -> bool {
    l.len() == 0 || (l.len() >= 2 && l[1] == ',')
}

/// The records a single line denotes: none for a blank line, else the pair
/// of its first character and everything after the comma.
pub open spec fn line_records(l: Seq<char>) -> Seq<(char, Seq<char>)> {
    if l.len() == 0 {
        Seq::empty()
    } else {
        seq![(l[0], l.skip(2))]
    }
}

/// The records of a sequence of lines, in order.
pub open spec fn records_of(lines: Seq<Seq<char>>) -> Seq<(char, Seq<char>)>
    decreases lines.len(),
{
    if lines.len() == 0 {
        Seq::empty()
    } else {
        line_records(lines[0]) + records_of(lines.drop_first())
    }
}

/// Every line of the dataset is well-formed.
pub open spec fn lines_ok(lines: Seq<Seq<char>>) -> bool {
    forall|k: int| 0 <= k < lines.len() ==> line_ok(lines[k])
}

/// A dataset line that is neither blank nor `<one character> ',' <symbol>`.
/// Holds the index of the first such line.
#[derive(Debug)]
pub struct MalformedLineError {
    pub line: usize,
}

/// Parses the newline-separated dataset text into its `(key, symbol)`
/// records. Blank lines are skipped; the first line that is not
/// `<one character> ',' <symbol>` fails the parse, the fail-fast policy a
/// corrupt static dataset deserves.
pub fn parse_dataset(text: &str) -> (r: Result<Vec<(char, String)>, MalformedLineError>)
    ensures
        match r {
            Ok(recs) => lines_ok(split_on(text@, '\n')) && recs@.map_values(
                |p: (char, String)| (p.0, p.1@),
            ) == records_of(split_on(text@, '\n')),
            Err(e) => {
                let lines = split_on(text@, '\n');
                &&& !lines_ok(lines)
                &&& e.line < lines.len()
                &&& !line_ok(lines[e.line as int])
                &&& forall|k: int| 0 <= k < e.line ==> line_ok(lines[k])
            },
        },
{
    let mut recs: Vec<(char, String)> = Vec::new();
    let n = text.unicode_len();
    let mut a: usize = 0;
    let mut count: usize = 0;
    let ghost mut done: Seq<Seq<char>> = Seq::empty();
    let mut finished = false;
    proof {
        assert(text@.skip(0) =~= text@);
        assert(done + split_on(text@, '\n') =~= split_on(text@, '\n'));
        assert(recs@.map_values(|p: (char, String)| (p.0, p.1@)) =~= records_of(done));
    }
    while !finished
        invariant
            a <= n,
            n == text@.len(),
            !finished ==> split_on(text@, '\n') == done + split_on(text@.skip(a as int), '\n'),
            finished ==> split_on(text@, '\n') == done,
            !finished ==> count == done.len() && count <= a,
            forall|k: int| 0 <= k < done.len() ==> line_ok(done[k]),
            recs@.map_values(|p: (char, String)| (p.0, p.1@)) == records_of(done),
        decreases (n - a) + (if finished {
            0int
        } else {
            1int
        }),
    {
        let e = find_char(text, '\n', a);
        let ghost rest = text@.skip(a as int);
        let ghost line = text@.subrange(a as int, e as int);
        proof {
            assert(find_first(rest, '\n') == e - a);
            assert(rest.take(e - a) =~= line);
            if e == n {
                assert(find_first(rest, '\n') >= rest.len());
                assert(rest =~= line);
                assert(split_on(rest, '\n') == seq![line]);
            } else {
                assert(rest.skip((e - a) + 1 as int) =~= text@.skip(e + 1));
                assert(split_on(rest, '\n') == seq![line] + split_on(text@.skip(e + 1), '\n'));
            }
            assert(split_on(rest, '\n')[0] == line);
            assert(split_on(text@, '\n')[count as int] == line);
            assert(split_on(text@, '\n').len() >= count + 1);
        }
        if e == a {
            // Blank line: well-formed, no record.
            proof {
                assert(line_records(line) =~= Seq::<(char, Seq<char>)>::empty());
                assert(records_of(done.push(line)) =~= records_of(done)) by {
                    lemma_records_of_push(done, line);
                    assert(records_of(done) + line_records(line) =~= records_of(done));
                }
            }
        } else if e - a >= 2 && text.get_char(a + 1) == ',' {
            let key = text.get_char(a);
            let sym = text.substring_char(a + 2, e).to_owned();
            proof {
                assert(line[0] == text@[a as int]);
                assert(line[1] == text@[a + 1]);
                assert(line.skip(2) =~= text@.subrange(a + 2, e as int));
                lemma_records_of_push(done, line);
                assert(recs@.push((key, sym)).map_values(|p: (char, String)| (p.0, p.1@))
                    =~= records_of(done) + line_records(line));
            }
            recs.push((key, sym));
        } else {
            proof {
                assert(line.len() == e - a);
                assert(line.len() >= 2 ==> line[1] == text@[a + 1]);
                assert(!line_ok(line));
            }
            return Err(MalformedLineError { line: count });
        }
        proof {
            if e == n {
                assert(done + split_on(rest, '\n') =~= done.push(line));
            } else {
                assert(done + split_on(rest, '\n') =~= done.push(line) + split_on(
                    text@.skip(e + 1),
                    '\n',
                ));
            }
            done = done.push(line);
        }
        if e == n {
            finished = true;
        } else {
            a = e + 1;
            count += 1;
        }
    }
    Ok(recs)
}

/// Appending a line appends its records.
proof fn lemma_records_of_push(lines: Seq<Seq<char>>, l: Seq<char>)
    ensures
        records_of(lines.push(l)) == records_of(lines) + line_records(l),
    decreases lines.len(),
{
    let s = lines.push(l);
    if lines.len() == 0 {
        assert(s.drop_first() =~= Seq::<Seq<char>>::empty());
        assert(s[0] == l);
        assert(records_of(s) == line_records(l) + records_of(Seq::<Seq<char>>::empty()));
        assert(records_of(s) =~= records_of(lines) + line_records(l));
    } else {
        assert(s.drop_first() =~= lines.drop_first().push(l));
        assert(s[0] == lines[0]);
        lemma_records_of_push(lines.drop_first(), l);
        assert(records_of(s) == line_records(lines[0]) + records_of(lines.drop_first().push(l)));
        assert(records_of(s) == line_records(lines[0]) + (records_of(lines.drop_first())
            + line_records(l)));
        assert(records_of(lines) == line_records(lines[0]) + records_of(lines.drop_first()));
        assert(records_of(s) =~= records_of(lines) + line_records(l));
    }
}

/// A key is in the map exactly when it is one of the keys.
proof fn lemma_entries_map_dom(keys: Seq<char>, syms: Seq<Seq<char>>, c: char)
    requires
        keys.len() == syms.len(),
    ensures
        entries_map(keys, syms).contains_key(c) <==> keys.contains(c),
    decreases keys.len(),
{
    if keys.len() > 0 {
        lemma_entries_map_dom(keys.drop_last(), syms.drop_last(), c);
        if keys.contains(c) && c != keys.last() {
            let i = choose|i: int| 0 <= i < keys.len() && keys[i] == c;
            if i == keys.len() - 1 {
                assert(false);
            } else {
                assert(keys.drop_last()[i] == c);
            }
        }
        if keys.drop_last().contains(c) {
            let i = choose|i: int| 0 <= i < keys.drop_last().len() && keys.drop_last()[i] == c;
            assert(keys[i] == c);
        }
    }
}

/// With distinct keys, the map sends the key at position `i` to the symbol
/// at position `i`.
proof fn lemma_entries_map_at(keys: Seq<char>, syms: Seq<Seq<char>>, i: int)
    requires
        keys.len() == syms.len(),
        0 <= i < keys.len(),
        forall|p: int, q: int| 0 <= p < q < keys.len() ==> keys[p] != keys[q],
    ensures
        entries_map(keys, syms).contains_key(keys[i]),
        entries_map(keys, syms)[keys[i]] == syms[i],
    decreases keys.len(),
{
    if i == keys.len() - 1 {
    } else {
        lemma_entries_map_at(keys.drop_last(), syms.drop_last(), i);
        assert(keys.last() != keys[i]);
    }
}

} // verus!
