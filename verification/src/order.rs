//! The canonical presentation order of the books: a fixed 66-name table
//! covering both divisions, with a large sentinel rank for names outside it.
use vstd::prelude::*;
use crate::text::str_eq;
use crate::corpus::{Book, BookView, books_view};

verus! {

/// Rank given to a book whose name is not in the canonical table; it sorts
/// after every known name.
pub const UNKNOWN_RANK: u32 = 999;

/// The canonical table, in presentation order.
pub open spec fn canonical_names() -> Seq<Seq<char>> {
    seq![
        "Genesis"@,
        "Exodus"@,
        "Leviticus"@,
        "Numbers"@,
        "Deuteronomy"@,
        "Joshua"@,
        "Judges"@,
        "Ruth"@,
        "1Samuel"@,
        "2Samuel"@,
        "1Kings"@,
        "2Kings"@,
        "1Chronicles"@,
        "2Chronicles"@,
        "Ezra"@,
        "Nehemiah"@,
        "Esther"@,
        "Job"@,
        "Psalms"@,
        "Proverbs"@,
        "Ecclesiastes"@,
        "SongofSolomon"@,
        "Isaiah"@,
        "Jeremiah"@,
        "Lamentations"@,
        "Ezekiel"@,
        "Daniel"@,
        "Hosea"@,
        "Joel"@,
        "Amos"@,
        "Obadiah"@,
        "Jonah"@,
        "Micah"@,
        "Nahum"@,
        "Habakkuk"@,
        "Zephaniah"@,
        "Haggai"@,
        "Zechariah"@,
        "Malachi"@,
        "Matthew"@,
        "Mark"@,
        "Luke"@,
        "John"@,
        "Acts"@,
        "Romans"@,
        "1Corinthians"@,
        "2Corinthians"@,
        "Galatians"@,
        "Ephesians"@,
        "Philippians"@,
        "Colossians"@,
        "1Thessalonians"@,
        "2Thessalonians"@,
        "1Timothy"@,
        "2Timothy"@,
        "Titus"@,
        "Philemon"@,
        "Hebrews"@,
        "James"@,
        "1Peter"@,
        "2Peter"@,
        "1John"@,
        "2John"@,
        "3John"@,
        "Jude"@,
        "Revelation"@,
    ]
}

/// Position of `name` in `names`, or -1 when absent.
pub open spec fn name_index(names: Seq<Seq<char>>, name: Seq<char>) -> int
    decreases names.len(),
{
    if names.len() == 0 {
        -1
    } else if names[0] == name {
        0
    } else {
        let r = name_index(names.drop_first(), name);
        if r < 0 {
            -1
        } else {
            r + 1
        }
    }
}

/// The sort key of a book name: its canonical position, or the sentinel for
/// a name outside the table.
pub open spec fn spec_rank(name: Seq<char>) -> int {
    let i = name_index(canonical_names(), name);
    if i < 0 {
        UNKNOWN_RANK as int
    } else {
        i
    }
}

proof fn lemma_name_index_at(names: Seq<Seq<char>>, name: Seq<char>, i: int)
    requires
        0 <= i <= names.len(),
        forall|j: int| 0 <= j < i ==> names[j] != name,
        i < names.len() ==> names[i] == name,
    ensures
        name_index(names, name) == if i < names.len() {
            i
        } else {
            -1
        },
    decreases names.len(),
{
    if names.len() == 0 {
    } else if i == 0 {
    } else {
        assert(names[0] != name);
        assert(forall|j: int| 0 <= j < i - 1 ==> names.drop_first()[j] == names[j + 1]);
        lemma_name_index_at(names.drop_first(), name, i - 1);
    }
}

/// The canonical table as a value, for enumeration and for the rank scan.
pub fn get_standard_book_order() -> (r: Vec<&'static str>)
    ensures
        r@.map_values(|s: &str| s@) == canonical_names(),
{
    let mut v: Vec<&'static str> = Vec::new();
    v.push("Genesis");
    v.push("Exodus");
    v.push("Leviticus");
    v.push("Numbers");
    v.push("Deuteronomy");
    v.push("Joshua");
    v.push("Judges");
    v.push("Ruth");
    v.push("1Samuel");
    v.push("2Samuel");
    v.push("1Kings");
    v.push("2Kings");
    v.push("1Chronicles");
    v.push("2Chronicles");
    v.push("Ezra");
    v.push("Nehemiah");
    v.push("Esther");
    v.push("Job");
    v.push("Psalms");
    v.push("Proverbs");
    v.push("Ecclesiastes");
    v.push("SongofSolomon");
    v.push("Isaiah");
    v.push("Jeremiah");
    v.push("Lamentations");
    v.push("Ezekiel");
    v.push("Daniel");
    v.push("Hosea");
    v.push("Joel");
    v.push("Amos");
    v.push("Obadiah");
    v.push("Jonah");
    v.push("Micah");
    v.push("Nahum");
    v.push("Habakkuk");
    v.push("Zephaniah");
    v.push("Haggai");
    v.push("Zechariah");
    v.push("Malachi");
    v.push("Matthew");
    v.push("Mark");
    v.push("Luke");
    v.push("John");
    v.push("Acts");
    v.push("Romans");
    v.push("1Corinthians");
    v.push("2Corinthians");
    v.push("Galatians");
    v.push("Ephesians");
    v.push("Philippians");
    v.push("Colossians");
    v.push("1Thessalonians");
    v.push("2Thessalonians");
    v.push("1Timothy");
    v.push("2Timothy");
    v.push("Titus");
    v.push("Philemon");
    v.push("Hebrews");
    v.push("James");
    v.push("1Peter");
    v.push("2Peter");
    v.push("1John");
    v.push("2John");
    v.push("3John");
    v.push("Jude");
    v.push("Revelation");
    proof {
        assert(v@.map_values(|s: &str| s@) =~= canonical_names());
    }
    v
}

/// The rank a book name sorts by.
pub fn rank_of(name: &str) -> (r: u32)
    ensures
        r == spec_rank(name@),
{
    let table = get_standard_book_order();
    let n = table.len();
    let mut i: usize = 0;
    while i < n
        invariant
            i <= n,
            n == table.len(),
            table@.map_values(|s: &str| s@) == canonical_names(),
            forall|j: int| 0 <= j < i ==> #[trigger] canonical_names()[j] != name@,
        decreases n - i,
    {
        if str_eq(table[i], name) {
            proof {
                lemma_name_index_at(canonical_names(), name@, i as int);
            }
            return i as u32;
        }
        i += 1;
    }
    proof {
        lemma_name_index_at(canonical_names(), name@, n as int);
    }
    UNKNOWN_RANK
}

/// The book drawn from position `ai` of the input sorts strictly before the
/// one drawn from `bi`: a lower rank, or the same rank and the earlier
/// position.
pub open spec fn rank_lt(a: BookView, ai: int, b: BookView, bi: int) -> bool {
    spec_rank(a.name) < spec_rank(b.name) || (spec_rank(a.name) == spec_rank(b.name) && ai < bi)
}

/// `output` rearranges `input` through `perm`, positions strictly increasing
/// by rank with ties kept in input order.  For a given input exactly one
/// such arrangement exists.
pub open spec fn is_stable_ordering(
    input: Seq<BookView>,
    output: Seq<BookView>,
    perm: Seq<int>,
) -> bool {
    &&& perm.len() == input.len()
    &&& output.len() == input.len()
    &&& (forall|k: int| 0 <= k < perm.len() ==> 0 <= #[trigger] perm[k] < input.len())
    &&& (forall|k: int| 0 <= k < perm.len() ==> output[k] == input[#[trigger] perm[k]])
    &&& (forall|k1: int, k2: int|
        0 <= k1 < k2 < perm.len() ==> rank_lt(
            input[#[trigger] perm[k1]],
            perm[k1],
            input[#[trigger] perm[k2]],
            perm[k2],
        ))
}

/// Sorts the books by canonical rank, names outside the table last, stably
/// with respect to the order they were loaded in.
pub fn sort_books(books: &mut Vec<Book>)
    ensures
        exists|perm: Seq<int>|
            is_stable_ordering(books_view(old(books)@), books_view(final(books)@), perm),
{
    let ghost input = books_view(books@);
    let n = books.len();
    let ghost mut perm: Seq<int> = Seq::new(n as nat, |k: int| k);
    if n == 0 {
        proof {
            assert(is_stable_ordering(input, books_view(books@), perm));
        }
        return ;
    }
    let mut i: usize = 1;
    while i < n
        invariant
            1 <= i <= n,
            books.len() == n,
            perm.len() == n,
            input.len() == n,
            input == books_view(old(books)@),
            forall|k: int| 0 <= k < n ==> 0 <= #[trigger] perm[k] < n,
            forall|k: int| i <= k < n ==> #[trigger] perm[k] == k,
            forall|k: int| 0 <= k < i ==> 0 <= #[trigger] perm[k] < i,
            forall|k: int| 0 <= k < n ==> books@[k]@ == input[#[trigger] perm[k]],
            forall|k1: int, k2: int|
                0 <= k1 < k2 < i ==> rank_lt(
                    input[#[trigger] perm[k1]],
                    perm[k1],
                    input[#[trigger] perm[k2]],
                    perm[k2],
                ),
        decreases n - i,
    {
        let ghost bs0 = books@;
        let ghost pm0 = perm;
        let b = books.remove(i);
        let rb = rank_of(b.name.as_str());
        proof {
            assert(bs0.len() == n);
            assert(pm0[i as int] == i as int);
            assert(bs0[i as int]@ == input[pm0[i as int]]);
            assert(b@ == input[i as int]);
        }
        let mut p: usize = 0;
        loop
            invariant_except_break
                p <= i,
                i < n,
                books.len() == n - 1,
                bs0.len() == n,
                books@ == bs0.remove(i as int),
                pm0.len() == n,
                input.len() == n,
                rb == spec_rank(input[i as int].name),
                forall|k: int| 0 <= k < i ==> bs0[k]@ == input[#[trigger] pm0[k]],
                forall|k: int| 0 <= k < i ==> 0 <= #[trigger] pm0[k] < i,
                forall|q: int| 0 <= q < p ==> spec_rank(input[#[trigger] pm0[q]].name) <= rb,
            ensures
                p <= i,
                books.len() == n - 1,
                books@ == bs0.remove(i as int),
                forall|q: int| 0 <= q < p ==> spec_rank(input[#[trigger] pm0[q]].name) <= rb,
                p < i ==> spec_rank(input[pm0[p as int]].name) > rb,
            decreases i - p,
        {
            if p == i {
                break ;
            }
            let rp = rank_of(books[p].name.as_str());
            proof {
                bs0.remove_ensures(i as int);
                assert(books@[p as int] == bs0[p as int]);
            }
            if rp > rb {
                break ;
            }
            p += 1;
        }
        books.insert(p, b);
        proof {
            let ghost pm1 = pm0.remove(i as int).insert(p as int, i as int);
            let bs2 = books@;
            assert(bs0.len() == n);
            bs0.remove_ensures(i as int);
            bs0.remove(i as int).insert_ensures(p as int, b);
            pm0.remove_ensures(i as int);
            pm0.remove(i as int).insert_ensures(p as int, i as int);
            assert forall|k: int| 0 <= k < n implies bs2[k]@ == input[#[trigger] pm1[k]] by {
                if k < p {
                    assert(bs2[k] == bs0[k]);
                    assert(pm1[k] == pm0[k]);
                } else if k == p {
                    assert(bs2[k] == b);
                    assert(pm1[k] == i as int);
                } else if k <= i {
                    assert(bs2[k] == bs0[k - 1]);
                    assert(pm1[k] == pm0[k - 1]);
                } else {
                    assert(bs2[k] == bs0[k]);
                    assert(pm1[k] == pm0[k]);
                }
            }
            assert forall|k: int| 0 <= k < i + 1 implies 0 <= #[trigger] pm1[k] < i + 1 by {
                if k < p {
                } else if k == p {
                } else {
                    assert(pm1[k] == pm0[k - 1]);
                }
            }
            assert forall|k: int| i + 1 <= k < n implies #[trigger] pm1[k] == k by {
                assert(pm1[k] == pm0[k]);
            }
            assert forall|k1: int, k2: int| 0 <= k1 < k2 < i + 1 implies rank_lt(
                input[#[trigger] pm1[k1]],
                pm1[k1],
                input[#[trigger] pm1[k2]],
                pm1[k2],
            ) by {
                if k2 < p {
                    assert(pm1[k1] == pm0[k1] && pm1[k2] == pm0[k2]);
                } else if k2 == p {
                    assert(pm1[k1] == pm0[k1] && pm1[k2] == i as int);
                    assert(spec_rank(input[pm0[k1]].name) <= rb);
                    assert(pm0[k1] < i);
                } else if k1 < p {
                    assert(pm1[k1] == pm0[k1] && pm1[k2] == pm0[k2 - 1]);
                    if k2 - 1 == k1 {
                        assert(k1 == p - 1 && k2 == p + 1);
                        assert(false);
                    }
                } else if k1 == p {
                    assert(pm1[k1] == i as int && pm1[k2] == pm0[k2 - 1]);
                    assert(spec_rank(input[pm0[p as int]].name) > rb);
                    if k2 - 1 > p {
                        assert(rank_lt(
                            input[pm0[p as int]],
                            pm0[p as int],
                            input[pm0[k2 - 1]],
                            pm0[k2 - 1],
                        ));
                    }
                    assert(spec_rank(input[pm0[k2 - 1]].name) > rb);
                } else {
                    assert(pm1[k1] == pm0[k1 - 1] && pm1[k2] == pm0[k2 - 1]);
                }
            }
            perm = pm1;
        }
        i += 1;
    }
    proof {
        assert(is_stable_ordering(input, books_view(books@), perm));
    }
}

} // verus!
