//! The free balances of the account, by currency.
use crate::decimal::{decimal_less, in_range, parsed_decimal, zero_amount, Amount};
use crate::names::in_order;
use crate::text::{is_before, lemma_before_total, lemma_before_transitive};
use dashmap::DashMap;
use vstd::prelude::*;

verus! {

broadcast use vstd::string::group_string_axioms;

/// `dashmap::DashMap`, a map that threads share.
#[verifier::external_type_specification]
#[verifier::external_body]
#[verifier::reject_recursive_types(K)]
#[verifier::reject_recursive_types(V)]
#[verifier::reject_recursive_types(S)]
pub struct ExDashMap<K, V, S>(DashMap<K, V, S>);

/// What a map of whole numbers and scales holds, by the text of its keys.
pub uninterp spec fn entries_of(map: DashMap<String, (i128, u32)>) -> Map<Seq<char>, (i128, u32)>;

/// No entries.
pub open spec fn no_entries() -> Map<Seq<char>, (i128, u32)> {
    Map::empty()
}

/// `DashMap::new`: a map that holds nothing.
#[verifier::external_body]
fn new_map() -> (r: DashMap<String, (i128, u32)>)
    ensures
        entries_of(r) == no_entries(),
{
    DashMap::new()
}

/// `DashMap::clear`: the map holds nothing afterwards. It is called with a reference to which no
/// other is held, so that it cannot block.
#[verifier::external_body]
fn clear_map(map: &mut DashMap<String, (i128, u32)>)
    ensures
        entries_of(*final(map)) == no_entries(),
{
    map.clear();
}

/// `DashMap::insert`: the map holds the value for the key afterwards, and nothing else changes.
#[verifier::external_body]
fn insert_entry(map: &mut DashMap<String, (i128, u32)>, key: String, value: (i128, u32))
    ensures
        entries_of(*final(map)) == entries_of(*old(map)).insert(key@, value),
{
    map.insert(key, value);
}

/// `DashMap::get`, the value copied out: what the map holds for the key.
#[verifier::external_body]
fn lookup(map: &DashMap<String, (i128, u32)>, key: &str) -> (r: Option<(i128, u32)>)
    ensures
        r == (if entries_of(*map).contains_key(key@) {
            Some(entries_of(*map)[key@])
        } else {
            None
        }),
{
    match map.get(key) {
        Some(v) => Some(*v.value()),
        None => None,
    }
}

/// `DashMap::iter`, each entry copied out: the entries of the map, each once, in an order that is
/// left open.
#[verifier::external_body]
fn entries(map: &DashMap<String, (i128, u32)>) -> (r: Vec<(String, (i128, u32))>)
    ensures
        forall|i: int|
            0 <= i < r@.len() ==> entries_of(*map).contains_key((#[trigger] r@[i]).0@) && entries_of(
                *map,
            )[r@[i].0@] == r@[i].1,
        forall|k: Seq<char>| #[trigger]
            entries_of(*map).contains_key(k) ==> exists|i: int|
                0 <= i < r@.len() && (#[trigger] r@[i]).0@ == k,
        forall|i: int, j: int| 0 <= i < j < r@.len() ==> (#[trigger] r@[i]).0@ != (#[trigger] r@[j]).0@,
{
    map.iter().map(|entry| (entry.key().clone(), *entry.value())).collect()
}

/// The free balances.
pub struct BalanceStore {
    map: DashMap<String, (i128, u32)>,
}

impl View for BalanceStore {
    type V = Map<Seq<char>, (int, int)>;

    closed spec fn view(&self) -> Map<Seq<char>, (int, int)> {
        entries_of(self.map).map_values(|v: (i128, u32)| (v.0 as int, v.1 as int))
    }
}

/// The balances of a list, the last one where a currency comes more than once.
pub open spec fn balance_map(list: Seq<(String, Amount)>) -> Map<Seq<char>, (int, int)>
    decreases list.len(),
{
    if list.len() == 0 {
        Map::empty()
    } else {
        balance_map(list.drop_last()).insert(list.last().0@, list.last().1@)
    }
}

/// The currencies of a list of balances.
pub open spec fn currencies(list: Seq<(String, Amount)>) -> Seq<Seq<char>> {
    list.map_values(|b: (String, Amount)| b.0@)
}

/// Whether a list holds what a map holds, in the order of the currencies.
pub open spec fn lists(list: Seq<(String, Amount)>, map: Map<Seq<char>, (int, int)>) -> bool {
    &&& in_order(currencies(list))
    &&& forall|i: int|
        0 <= i < list.len() ==> map.contains_key((#[trigger] list[i]).0@) && map[list[i].0@]
            == list[i].1@
    &&& forall|k: Seq<char>| #[trigger] map.contains_key(k) ==> currencies(list).contains(k)
}

impl BalanceStore {
    /// All amounts are in range.
    pub closed spec fn wf(&self) -> bool {
        forall|k: Seq<char>| #[trigger]
            entries_of(self.map).contains_key(k) ==> in_range(
                entries_of(self.map)[k].0 as int,
                entries_of(self.map)[k].1 as int,
            )
    }

    /// A store without balances.
    pub fn new() -> (r: BalanceStore)
        ensures
            r.wf(),
            r@ == Map::<Seq<char>, (int, int)>::empty(),
    {
        let r = BalanceStore { map: new_map() };
        assert(r@ =~= Map::<Seq<char>, (int, int)>::empty());
        r
    }

    /// Replaces all balances.
    pub fn set_all(&mut self, balances: Vec<(String, Amount)>)
        ensures
            final(self).wf(),
            final(self)@ == balance_map(balances@),
    {
        clear_map(&mut self.map);
        let mut i: usize = 0;
        proof {
            assert(self@ =~= Map::<Seq<char>, (int, int)>::empty());
            assert(balances@.take(0) == Seq::<(String, Amount)>::empty());
        }
        while i < balances.len()
            invariant
                i <= balances.len(),
                self.wf(),
                self@ == balance_map(balances@.take(i as int)),
            decreases balances.len() - i,
        {
            let ghost head = balances@.take(i + 1);
            let ghost before = self@;
            assert(head.drop_last() == balances@.take(i as int) && head.last() == balances@[i as int]);
            let key: String = balances[i].0.clone();
            let amount: Amount = balances[i].1;
            insert_entry(&mut self.map, key, (amount.mantissa(), amount.scale()));
            assert(self@ =~= before.insert(head.last().0@, head.last().1@));
            i = i + 1;
        }
        assert(balances@.take(balances@.len() as int) == balances@);
    }

    /// The balances in the order of the currencies.
    pub fn snapshot_sorted(&self) -> (r: Vec<(String, Amount)>)
        requires
            self.wf(),
        ensures
            lists(r@, self@),
    {
        let all: Vec<(String, (i128, u32))> = entries(&self.map);
        let mut r: Vec<(String, Amount)> = Vec::new();
        let mut i: usize = 0;
        while i < all.len()
            invariant
                i <= all.len(),
                self.wf(),
                forall|j: int|
                    0 <= j < all@.len() ==> entries_of(self.map).contains_key((#[trigger] all@[j]).0@)
                        && entries_of(self.map)[all@[j].0@] == all@[j].1,
                forall|j: int, k: int|
                    0 <= j < k < all@.len() ==> (#[trigger] all@[j]).0@ != (#[trigger] all@[k]).0@,
                in_order(currencies(r@)),
                forall|j: int|
                    0 <= j < r@.len() ==> self@.contains_key((#[trigger] r@[j]).0@)
                        && self@[r@[j].0@] == r@[j].1@,
                forall|j: int| 0 <= j < i ==> currencies(r@).contains((#[trigger] all@[j]).0@),
                forall|j: int|
                    0 <= j < r@.len() ==> exists|k: int|
                        0 <= k < i && (#[trigger] all@[k]).0@ == (#[trigger] r@[j]).0@,
            decreases all.len() - i,
        {
            let ghost before = r@;
            let name: String = all[i].0.clone();
            let (mantissa, scale): (i128, u32) = all[i].1;
            assert(self@.contains_key(name@));
            match Amount::new(mantissa, scale) {
                Some(amount) => {
                    let ghost item = (name, amount);
                    let place: usize = insert_balance(&mut r, name, amount);
                    proof {
                        assert(r@ == before.insert(place as int, item));
                        assert forall|j: int| 0 <= j < r@.len() implies self@.contains_key(
                            (#[trigger] r@[j]).0@,
                        ) && self@[r@[j].0@] == r@[j].1@ by {
                            if j < place {
                                assert(r@[j] == before[j]);
                            } else if j > place {
                                assert(r@[j] == before[j - 1]);
                            }
                        }
                        assert forall|j: int| 0 <= j < i + 1 implies currencies(r@).contains(
                            (#[trigger] all@[j]).0@,
                        ) by {
                            if j == i {
                                assert(currencies(r@)[place as int] == name@);
                            } else {
                                let p = choose|p: int|
                                    0 <= p < currencies(before).len() && currencies(before)[p]
                                        == all@[j].0@;
                                if p < place {
                                    assert(currencies(r@)[p] == currencies(before)[p]);
                                } else {
                                    assert(currencies(r@)[p + 1] == currencies(before)[p]);
                                }
                            }
                        }
                        assert forall|j: int| 0 <= j < r@.len() implies exists|k: int|
                            0 <= k < i + 1 && (#[trigger] all@[k]).0@ == (#[trigger] r@[j]).0@ by {
                            if j == place {
                                assert(all@[i as int].0@ == r@[j].0@);
                            } else {
                                let old_j = if j < place {
                                    j
                                } else {
                                    j - 1
                                };
                                assert(r@[j] == before[old_j]);
                                let k = choose|k: int|
                                    0 <= k < i && (#[trigger] all@[k]).0@ == before[old_j].0@;
                                assert(all@[k].0@ == r@[j].0@);
                            }
                        }
                    }
                },
                None => {
                    assert(false);
                },
            }
            i = i + 1;
        }
        proof {
            assert forall|k: Seq<char>| #[trigger] self@.contains_key(k) implies currencies(
                r@,
            ).contains(k) by {
                assert(entries_of(self.map).contains_key(k));
                let j = choose|j: int| 0 <= j < all@.len() && (#[trigger] all@[j]).0@ == k;
                assert(currencies(r@).contains(all@[j].0@));
            }
        }
        r
    }

    /// The balance of a currency, zero where there is none.
    pub fn get(&self, currency: &str) -> (r: Amount)
        requires
            self.wf(),
        ensures
            r@ == (if self@.contains_key(currency@) {
                self@[currency@]
            } else {
                zero_amount()
            }),
    {
        match lookup(&self.map, currency) {
            Some((mantissa, scale)) => match Amount::new(mantissa, scale) {
                Some(a) => a,
                None => Amount::zero(),
            },
            None => Amount::zero(),
        }
    }
}

/// Inserts a balance at its place in a list that is in order and does not hold the currency, and
/// gives the place.
fn insert_balance(list: &mut Vec<(String, Amount)>, name: String, amount: Amount) -> (r: usize)
    requires
        in_order(currencies(old(list)@)),
        forall|j: int| 0 <= j < old(list)@.len() ==> (#[trigger] old(list)@[j]).0@ != name@,
    ensures
        r <= old(list)@.len(),
        final(list)@ == old(list)@.insert(r as int, (name, amount)),
        in_order(currencies(final(list)@)),
{
    let ghost before = list@;
    let ghost names = currencies(list@);
    let mut i: usize = 0;
    while i < list.len() && is_before(list[i].0.as_str(), name.as_str())
        invariant
            i <= list.len(),
            list@ == before,
            names == currencies(before),
            forall|j: int| 0 <= j < i ==> crate::text::before(#[trigger] names[j], name@),
        decreases list.len() - i,
    {
        assert(names[i as int] == list@[i as int].0@);
        i = i + 1;
    }
    let ghost item = (name, amount);
    list.insert(i, (name, amount));
    proof {
        assert(list@ == before.insert(i as int, item));
        let all = currencies(list@);
        assert(all == names.insert(i as int, name@));
        assert forall|j: int| i <= j < names.len() implies crate::text::before(
            name@,
            #[trigger] names[j],
        ) by {
            assert(names[i as int] == before[i as int].0@);
            lemma_before_total(names[i as int], name@);
            if j > i {
                assert(crate::text::before(names[i as int], names[j]));
                lemma_before_transitive(name@, names[i as int], names[j]);
            }
        }
        assert forall|j: int, k: int| 0 <= j < k < all.len() implies crate::text::before(
            #[trigger] all[j],
            #[trigger] all[k],
        ) by {
            if j < i {
                assert(all[j] == names[j]);
            }
            if j > i {
                assert(all[j] == names[j - 1]);
            }
            if k < i {
                assert(all[k] == names[k]);
            }
            if k > i {
                assert(all[k] == names[k - 1]);
            }
        }
    }
    i
}

/// The amount that a text stands for, zero where it stands for none.
pub open spec fn amount_or_zero(text: Seq<char>) -> (int, int) {
    match parsed_decimal(text) {
        Ok(a) => a,
        Err(_) => zero_amount(),
    }
}

/// The amount that a text stands for, zero where it stands for none.
pub(crate) fn parse_or_zero(text: &str) -> (r: Amount)
    ensures
        r@ == amount_or_zero(text@),
{
    match Amount::parse(text) {
        Ok(a) => a,
        Err(_) => Amount::zero(),
    }
}

/// The currencies of which some is free, and how much, from their names and the texts of what is
/// free of them.
pub open spec fn free_of(balances: Seq<(String, String)>) -> Seq<(Seq<char>, (int, int))>
    decreases balances.len(),
{
    if balances.len() == 0 {
        Seq::empty()
    } else {
        let rest = free_of(balances.drop_last());
        let free = amount_or_zero(balances.last().1@);
        if decimal_less(zero_amount(), free) {
            rest.push((balances.last().0@, free))
        } else {
            rest
        }
    }
}

/// A list of balances as values.
pub open spec fn balance_values(list: Seq<(String, Amount)>) -> Seq<(Seq<char>, (int, int))> {
    list.map_values(|b: (String, Amount)| (b.0@, b.1@))
}

/// The currencies of which some is free, and how much.
pub fn free_balances(balances: &Vec<(String, String)>) -> (r: Vec<(String, Amount)>)
    ensures
        balance_values(r@) == free_of(balances@),
{
    let mut r: Vec<(String, Amount)> = Vec::new();
    let mut i: usize = 0;
    let zero: Amount = Amount::zero();
    assert(balances@.take(0) == Seq::<(String, String)>::empty());
    assert(balance_values(r@) == Seq::<(Seq<char>, (int, int))>::empty());
    while i < balances.len()
        invariant
            i <= balances.len(),
            zero@ == zero_amount(),
            balance_values(r@) == free_of(balances@.take(i as int)),
        decreases balances.len() - i,
    {
        let ghost head = balances@.take(i + 1);
        assert(head.drop_last() == balances@.take(i as int) && head.last() == balances@[i as int]);
        let free: Amount = parse_or_zero(balances[i].1.as_str());
        if zero.lt(&free) {
            let ghost before = balance_values(r@);
            r.push((balances[i].0.clone(), free));
            assert(balance_values(r@) == before.push((balances@[i as int].0@, free@)));
        }
        i = i + 1;
    }
    assert(balances@.take(balances@.len() as int) == balances@);
    r
}

/// What was set for a currency is what is read of it, and nothing else is there.
pub proof fn lemma_balance_map(list: Seq<(String, Amount)>, i: int)
    requires
        0 <= i < list.len(),
        forall|j: int| i < j < list.len() ==> (#[trigger] list[j]).0@ != list[i].0@,
    ensures
        balance_map(list).contains_key(list[i].0@),
        balance_map(list)[list[i].0@] == list[i].1@,
        forall|k: Seq<char>| #[trigger]
            balance_map(list).contains_key(k) ==> currencies(list).contains(k),
    decreases list.len(),
{
    lemma_balance_keys(list);
    if i < list.len() - 1 {
        assert(list[list.len() - 1].0@ != list[i].0@);
        lemma_balance_map(list.drop_last(), i);
    }
}

proof fn lemma_balance_keys(list: Seq<(String, Amount)>)
    ensures
        forall|k: Seq<char>| #[trigger]
            balance_map(list).contains_key(k) ==> currencies(list).contains(k),
    decreases list.len(),
{
    if list.len() > 0 {
        let init = list.drop_last();
        lemma_balance_keys(init);
        assert forall|k: Seq<char>| #[trigger] balance_map(list).contains_key(k) implies currencies(
            list,
        ).contains(k) by {
            if k == list.last().0@ {
                assert(currencies(list)[list.len() - 1] == k);
            } else {
                assert(balance_map(init).contains_key(k));
                let j = choose|j: int|
                    0 <= j < currencies(init).len() && currencies(init)[j] == k;
                assert(currencies(list)[j] == k);
            }
        }
    }
}

} // verus!
