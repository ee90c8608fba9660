use vstd::prelude::*;
use vstd::string::*;

verus! {

/// One seed file: its file name and its SQL text.
pub struct Seeding {
    pub name: String,
    pub sql: String,
}

/// Some seed is named `n`.
pub open spec fn has_name(seeds: Seq<Seeding>, n: Seq<char>) -> bool {
    exists|j: int| 0 <= j < seeds.len() && seeds[j].name@ == n
}

/// Some applied name is `n`.
pub open spec fn is_applied(applied: Seq<String>, n: Seq<char>) -> bool {
    exists|j: int| 0 <= j < applied.len() && applied[j]@ == n
}

/// The names among the first `n` applied ones that no seed has, in order.
pub open spec fn seed_orphans_upto(seeds: Seq<Seeding>, applied: Seq<String>, n: nat) -> Seq<
    Seq<char>,
>
    decreases n,
{
    if n == 0 {
        Seq::empty()
    } else {
        let prev = seed_orphans_upto(seeds, applied, (n - 1) as nat);
        if has_name(seeds, applied[n - 1]@) {
            prev
        } else {
            prev.push(applied[n - 1]@)
        }
    }
}

/// The applied names that no seed has, in the order of the ledger.
pub open spec fn seed_orphans(seeds: Seq<Seeding>, applied: Seq<String>) -> Seq<Seq<char>> {
    seed_orphans_upto(seeds, applied, applied.len())
}

/// The longest name, in characters, among the first `n` seeds.
pub open spec fn max_name_len(seeds: Seq<Seeding>, n: nat) -> nat
    decreases n,
{
    if n == 0 {
        0
    } else {
        let prev = max_name_len(seeds, (n - 1) as nat);
        if seeds[n - 1].name@.len() > prev {
            seeds[n - 1].name@.len()
        } else {
            prev
        }
    }
}

pub open spec fn strings_view(s: Seq<String>) -> Seq<Seq<char>> {
    s.map_values(|x: String| x@)
}

fn contains_name(file_seeds: &[Seeding], n: &String) -> (r: bool)
    ensures
        r == has_name(file_seeds@, n@),
{
    let mut i: usize = 0;
    while i < file_seeds.len()
        invariant
            0 <= i <= file_seeds@.len(),
            forall|k: int| 0 <= k < i ==> file_seeds@[k].name@ != n@,
        decreases file_seeds@.len() - i,
    {
        if file_seeds[i].name == *n {
            return true;
        }
        i += 1;
    }
    false
}

fn contains_string(applied: &[String], n: &String) -> (r: bool)
    ensures
        r == is_applied(applied@, n@),
{
    let mut i: usize = 0;
    while i < applied.len()
        invariant
            0 <= i <= applied@.len(),
            forall|k: int| 0 <= k < i ==> applied@[k]@ != n@,
        decreases applied@.len() - i,
    {
        if applied[i] == *n {
            return true;
        }
        i += 1;
    }
    false
}

/// The applied names that no seed file has, in ledger order, or `None` when
/// every applied name has its file.
pub fn check_for_orphans(file_seeds: Vec<Seeding>, applied_seeds: Vec<String>) -> (r: Option<
    Vec<String>,
>)
    ensures
        seed_orphans(file_seeds@, applied_seeds@).len() == 0 ==> r is None,
        seed_orphans(file_seeds@, applied_seeds@).len() > 0 ==> r is Some && strings_view(
            r->Some_0@,
        ) == seed_orphans(file_seeds@, applied_seeds@),
{
    let mut orphans: Vec<String> = Vec::new();
    let mut i: usize = 0;
    while i < applied_seeds.len()
        invariant
            0 <= i <= applied_seeds@.len(),
            strings_view(orphans@) == seed_orphans_upto(file_seeds@, applied_seeds@, i as nat),
        decreases applied_seeds@.len() - i,
    {
        if !contains_name(file_seeds.as_slice(), &applied_seeds[i]) {
            orphans.push(applied_seeds[i].clone());
            assert(strings_view(orphans@) =~= seed_orphans_upto(
                file_seeds@,
                applied_seeds@,
                (i + 1) as nat,
            ));
        }
        i += 1;
    }
    if orphans.len() > 0 {
        Some(orphans)
    } else {
        None
    }
}

/// For each seed, in order, whether the ledger lists its name as applied.
pub fn seed_statuses(file_seeds: &[Seeding], applied_seeds: &[String]) -> (r: Vec<bool>)
    ensures
        r@.len() == file_seeds@.len(),
        forall|i: int| 0 <= i < r@.len() ==> r@[i] == is_applied(applied_seeds@, file_seeds@[i].name@),
{
    let mut out: Vec<bool> = Vec::new();
    let mut i: usize = 0;
    while i < file_seeds.len()
        invariant
            0 <= i <= file_seeds@.len(),
            out@.len() == i,
            forall|k: int| 0 <= k < i ==> out@[k] == is_applied(applied_seeds@, file_seeds@[k].name@),
        decreases file_seeds@.len() - i,
    {
        out.push(contains_string(applied_seeds, &file_seeds[i].name));
        i += 1;
    }
    out
}

/// The width of the name column: the longest seed name, in characters.
pub fn name_width(file_seeds: &[Seeding]) -> (r: usize)
    ensures
        r == max_name_len(file_seeds@, file_seeds@.len()),
{
    let mut width: usize = 0;
    let mut i: usize = 0;
    while i < file_seeds.len()
        invariant
            0 <= i <= file_seeds@.len(),
            width == max_name_len(file_seeds@, i as nat),
        decreases file_seeds@.len() - i,
    {
        let len = file_seeds[i].name.as_str().unicode_len();
        if len > width {
            width = len;
        }
        i += 1;
    }
    width
}

/// An applied name that no seed file has is listed among the orphans.
pub proof fn lemma_unfiled_name_is_orphan(seeds: Seq<Seeding>, applied: Seq<String>, i: int)
    requires
        0 <= i < applied.len(),
        !has_name(seeds, applied[i]@),
    ensures
        seed_orphans(seeds, applied).contains(applied[i]@),
{
    lemma_orphan_kept(seeds, applied, applied.len(), i);
}

proof fn lemma_orphan_kept(seeds: Seq<Seeding>, applied: Seq<String>, n: nat, i: int)
    requires
        0 <= i < n <= applied.len(),
        !has_name(seeds, applied[i]@),
    ensures
        seed_orphans_upto(seeds, applied, n).contains(applied[i]@),
    decreases n,
{
    let prev = seed_orphans_upto(seeds, applied, (n - 1) as nat);
    if i == n - 1 {
        assert(seed_orphans_upto(seeds, applied, n).last() == applied[i]@);
    } else {
        lemma_orphan_kept(seeds, applied, (n - 1) as nat, i);
        let t = choose|t: int| 0 <= t < prev.len() && prev[t] == applied[i]@;
        assert(seed_orphans_upto(seeds, applied, n)[t] == applied[i]@);
    }
}

} // verus!
