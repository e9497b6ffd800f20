//! The adjacency model: interned relations, six adjacency tables, and
//! the precomputed compact-token cache.
//!
//! A `Mapping` is built once per run from the three relation files and is
//! read-only afterwards.  Its internal consistency — every reachable code
//! has a non-empty neighbor list pointing back into the model — is a type
//! invariant, established by the four-pass filter and the interning pass.

use crate::codec::{encode3, encode_code};
use crate::error::Error;
use crate::rel::{
    distinct, find_code, first_seen, forward_bucket, forward_lists, kept_df, kept_fi,
    kept_fi_first, kept_if, lefts, lemma_code_of, lemma_first_seen_contains,
    lemma_first_seen_distinct, lemma_first_seen_prefix_len, lemma_first_seen_step,
    lemma_first_seen_sub, lemma_forward_bucket_nonempty, lemma_forward_bucket_step,
    lemma_forward_bucket_vals, lemma_keep_left_props, lemma_keep_right_props,
    lemma_reverse_bucket_nonempty, lemma_reverse_bucket_step, lemma_reverse_bucket_vals,
    names_view, recs_view, reverse_bucket, reverse_lists, rights, tables_view,
};
use crate::rng::WalkRng;
use vstd::prelude::*;

verus! {

/// The larger of two lengths.
pub open spec fn max2(a: int, b: int) -> int {
    if a >= b {
        a
    } else {
        b
    }
}

/// One entity type of the four code spaces.
#[derive(Clone, Copy, Debug, PartialEq, Eq, Structural)]
pub enum EntityKind {
    Dog,
    Food,
    Ingredient,
    Flavor,
}

/// One line of a mapping artifact: the original name, a comma, and the
/// compact token of its code.
pub open spec fn artifact_line(name: Seq<u8>, code: int) -> Seq<u8> {
    name + seq![44u8] + encode3(code as u16)
}

/// A whole mapping artifact: one line per interned name, in code order,
/// separated by newlines.
pub open spec fn artifact_content(names: Seq<Seq<u8>>) -> Seq<u8>
    decreases names.len(),
{
    if names.len() == 0 {
        Seq::empty()
    } else if names.len() == 1 {
        artifact_line(names[0], 0)
    } else {
        artifact_content(names.drop_last()) + seq![10u8] + artifact_line(
            names.last(),
            names.len() - 1,
        )
    }
}

/// A neighbor list is usable: non-empty, every code within the partner
/// code space.
pub open spec fn list_ok(l: Seq<u16>, partner: int) -> bool {
    l.len() >= 1 && forall|j: int| 0 <= j < l.len() ==> l[j] < partner
}

/// Every list of an adjacency table is usable.
pub open spec fn table_ok(t: Seq<Seq<u16>>, partner: int) -> bool {
    forall|k: int| 0 <= k < t.len() ==> list_ok(#[trigger] t[k], partner)
}

/// The interned model of the three filtered relations: six adjacency
/// tables and the four name tables, before assembly into a `Mapping`.
pub struct ModelTables {
    pub dog_food: Vec<Vec<u16>>,
    pub food_dog: Vec<Vec<u16>>,
    pub food_ingredient: Vec<Vec<u16>>,
    pub ingredient_food: Vec<Vec<u16>>,
    pub ingredient_flavor: Vec<Vec<u16>>,
    pub flavor_ingredient: Vec<Vec<u16>>,
    pub dog_names: Vec<Vec<u8>>,
    pub food_names: Vec<Vec<u8>>,
    pub ingredient_names: Vec<Vec<u8>>,
    pub flavor_names: Vec<Vec<u8>>,
}

/// Intern one column of a relation in first-appearance order.
///
/// Fails with `UnknownCode` exactly when the column holds more distinct
/// names than the `u16` code space.
fn intern_column(rs: &Vec<(Vec<u8>, Vec<u8>)>, use_right: bool) -> (r: Result<Vec<Vec<u8>>, Error>)
    ensures
        ({
            let col = if use_right {
                rights(recs_view(rs@))
            } else {
                lefts(recs_view(rs@))
            };
            match r {
                Ok(keys) => first_seen(col).len() <= 0x10000 && names_view(keys@) == first_seen(
                    col,
                ),
                Err(e) => e == Error::UnknownCode && first_seen(col).len() > 0x10000,
            }
        }),
{
    let ghost col = if use_right {
        rights(recs_view(rs@))
    } else {
        lefts(recs_view(rs@))
    };
    let n = rs.len();
    let mut keys: Vec<Vec<u8>> = Vec::new();
    let mut i: usize = 0;
    proof {
        assert(names_view(keys@) =~= first_seen(col.take(0)));
    }
    while i < n
        invariant
            n == rs@.len(),
            col == (if use_right {
                rights(recs_view(rs@))
            } else {
                lefts(recs_view(rs@))
            }),
            0 <= i <= n,
            keys@.len() <= 0x10000,
            names_view(keys@) =~= first_seen(col.take(i as int)),
        decreases n - i,
    {
        let name = if use_right {
            &rs[i].1
        } else {
            &rs[i].0
        };
        proof {
            lemma_first_seen_distinct(col.take(i as int));
            lemma_first_seen_step(col, i as int);
            assert(col[i as int] == name@);
        }
        match find_code(&keys, name) {
            Some(_) => {},
            None => {
                if keys.len() >= 0x10000 {
                    proof {
                        assert(first_seen(col.take(i + 1)).len() > 0x10000);
                        lemma_first_seen_prefix_len(col, i + 1);
                    }
                    return Err(Error::UnknownCode);
                }
                let c = crate::rel::copy_bytes(name);
                proof {
                    assert(names_view(keys@.push(c)) =~= names_view(keys@).push(c@));
                }
                keys.push(c);
            },
        }
        i = i + 1;
    }
    proof {
        assert(col.take(n as int) =~= col);
    }
    Ok(keys)
}

/// A table of `n` empty neighbor lists.
fn empty_table(n: usize) -> (r: Vec<Vec<u16>>)
    ensures
        r@.len() == n,
        forall|k: int| 0 <= k < n ==> (#[trigger] r@[k])@ =~= Seq::<u16>::empty(),
{
    let mut r: Vec<Vec<u16>> = Vec::new();
    let mut i: usize = 0;
    while i < n
        invariant
            0 <= i <= n,
            r@.len() == i,
            forall|k: int| 0 <= k < i ==> (#[trigger] r@[k])@ =~= Seq::<u16>::empty(),
        decreases n - i,
    {
        r.push(Vec::new());
        i = i + 1;
    }
    r
}

/// Build the forward and reverse adjacency tables of one coded relation.
///
/// Fails with `UnknownCode` exactly when some record names an entity
/// outside the given key tables.
fn fill_tables(rs: &Vec<(Vec<u8>, Vec<u8>)>, lkeys: &Vec<Vec<u8>>, rkeys: &Vec<Vec<u8>>) -> (r:
    Result<(Vec<Vec<u16>>, Vec<Vec<u16>>), Error>)
    requires
        distinct(names_view(lkeys@)),
        distinct(names_view(rkeys@)),
        names_view(lkeys@).len() <= 0x10000,
        names_view(rkeys@).len() <= 0x10000,
    ensures
        ({
            let rsv = recs_view(rs@);
            let lkv = names_view(lkeys@);
            let rkv = names_view(rkeys@);
            match r {
                Ok(t) => (forall|j: int|
                    0 <= j < rsv.len() ==> lkv.contains((#[trigger] rsv[j]).0) && rkv.contains(
                        rsv[j].1,
                    )) && tables_view(t.0@) == forward_lists(rsv, lkv, rkv) && tables_view(t.1@)
                    == reverse_lists(rsv, lkv, rkv),
                Err(e) => e == Error::UnknownCode && exists|j: int|
                    0 <= j < rsv.len() && !(lkv.contains((#[trigger] rsv[j]).0) && rkv.contains(
                        rsv[j].1,
                    )),
            }
        }),
{
    let ghost rsv = recs_view(rs@);
    let ghost lkv = names_view(lkeys@);
    let ghost rkv = names_view(rkeys@);
    let n = rs.len();
    let mut fwd = empty_table(lkeys.len());
    let mut rev = empty_table(rkeys.len());
    let mut i: usize = 0;
    proof {
        reveal(Seq::filter);
        assert(rsv.take(0) =~= Seq::<(Seq<u8>, Seq<u8>)>::empty());
        assert forall|k: int| 0 <= k < lkv.len() implies (#[trigger] fwd@[k])@ =~= forward_bucket(
            rsv.take(0),
            lkv,
            rkv,
            k,
        ) by {}
        assert forall|k: int| 0 <= k < rkv.len() implies (#[trigger] rev@[k])@ =~= reverse_bucket(
            rsv.take(0),
            lkv,
            rkv,
            k,
        ) by {}
    }
    while i < n
        invariant
            n == rs@.len(),
            rsv == recs_view(rs@),
            lkv == names_view(lkeys@),
            rkv == names_view(rkeys@),
            distinct(lkv),
            distinct(rkv),
            lkv.len() <= 0x10000,
            rkv.len() <= 0x10000,
            0 <= i <= n,
            fwd@.len() == lkv.len(),
            rev@.len() == rkv.len(),
            forall|j: int|
                0 <= j < i ==> lkv.contains((#[trigger] rsv[j]).0) && rkv.contains(rsv[j].1),
            forall|k: int|
                0 <= k < lkv.len() ==> (#[trigger] fwd@[k])@ =~= forward_bucket(
                    rsv.take(i as int),
                    lkv,
                    rkv,
                    k,
                ),
            forall|k: int|
                0 <= k < rkv.len() ==> (#[trigger] rev@[k])@ =~= reverse_bucket(
                    rsv.take(i as int),
                    lkv,
                    rkv,
                    k,
                ),
        decreases n - i,
    {
        proof {
            assert(rsv[i as int] == (rs@[i as int].0@, rs@[i as int].1@));
        }
        let a = match find_code(lkeys, &rs[i].0) {
            Some(a) => a,
            None => {
                proof {
                    assert(!(lkv.contains((rsv[i as int]).0) && rkv.contains(rsv[i as int].1)));
                }
                return Err(Error::UnknownCode);
            },
        };
        let b = match find_code(rkeys, &rs[i].1) {
            Some(b) => b,
            None => {
                proof {
                    assert(!(lkv.contains((rsv[i as int]).0) && rkv.contains(rsv[i as int].1)));
                }
                return Err(Error::UnknownCode);
            },
        };
        proof {
            lemma_code_of(lkv, rsv[i as int].0);
            lemma_code_of(rkv, rsv[i as int].1);
        }
        let mut ftmp: Vec<u16> = Vec::new();
        fwd.set_and_swap(a, &mut ftmp);
        ftmp.push(b as u16);
        fwd.set(a, ftmp);
        let mut rtmp: Vec<u16> = Vec::new();
        rev.set_and_swap(b, &mut rtmp);
        rtmp.push(a as u16);
        rev.set(b, rtmp);
        proof {
            assert forall|k: int| 0 <= k < lkv.len() implies (#[trigger] fwd@[k])@
                =~= forward_bucket(rsv.take(i + 1), lkv, rkv, k) by {
                lemma_forward_bucket_step(rsv, lkv, rkv, i as int, k);
            }
            assert forall|k: int| 0 <= k < rkv.len() implies (#[trigger] rev@[k])@
                =~= reverse_bucket(rsv.take(i + 1), lkv, rkv, k) by {
                lemma_reverse_bucket_step(rsv, lkv, rkv, i as int, k);
            }
        }
        i = i + 1;
    }
    proof {
        assert(rsv.take(n as int) =~= rsv);
        assert(tables_view(fwd@) =~= forward_lists(rsv, lkv, rkv));
        assert(tables_view(rev@) =~= reverse_lists(rsv, lkv, rkv));
    }
    Ok((fwd, rev))
}

/// The adjacency model.
pub struct Mapping {
    base64_cache: Vec<[u8; 3]>,
    dog_food_map: Vec<Vec<u16>>,
    food_ingredient_map: Vec<Vec<u16>>,
    ingredient_flavor_map: Vec<Vec<u16>>,
    flavor_ingredient_map: Vec<Vec<u16>>,
    ingredient_food_map: Vec<Vec<u16>>,
    food_dog_map: Vec<Vec<u16>>,
    dog_names: Vec<Vec<u8>>,
    food_names: Vec<Vec<u8>>,
    ingredient_names: Vec<Vec<u8>>,
    flavor_names: Vec<Vec<u8>>,
}

impl Mapping {
    /// The dog-to-food adjacency table.
    pub closed spec fn dog_food(self) -> Seq<Seq<u16>> {
        tables_view(self.dog_food_map@)
    }

    /// The food-to-ingredient adjacency table.
    pub closed spec fn food_ingredient(self) -> Seq<Seq<u16>> {
        tables_view(self.food_ingredient_map@)
    }

    /// The ingredient-to-flavor adjacency table.
    pub closed spec fn ingredient_flavor(self) -> Seq<Seq<u16>> {
        tables_view(self.ingredient_flavor_map@)
    }

    /// The flavor-to-ingredient adjacency table.
    pub closed spec fn flavor_ingredient(self) -> Seq<Seq<u16>> {
        tables_view(self.flavor_ingredient_map@)
    }

    /// The ingredient-to-food adjacency table.
    pub closed spec fn ingredient_food(self) -> Seq<Seq<u16>> {
        tables_view(self.ingredient_food_map@)
    }

    /// The food-to-dog adjacency table.
    pub closed spec fn food_dog(self) -> Seq<Seq<u16>> {
        tables_view(self.food_dog_map@)
    }

    /// The compact-token cache contents.
    pub closed spec fn cache(self) -> Seq<Seq<u8>> {
        Seq::new(self.base64_cache@.len(), |i: int| self.base64_cache@[i]@)
    }

    /// The interned names of one entity type, in code order.
    pub closed spec fn names_of(self, kind: EntityKind) -> Seq<Seq<u8>> {
        match kind {
            EntityKind::Dog => names_view(self.dog_names@),
            EntityKind::Food => names_view(self.food_names@),
            EntityKind::Ingredient => names_view(self.ingredient_names@),
            EntityKind::Flavor => names_view(self.flavor_names@),
        }
    }

    /// The number of interned dogs.
    pub open spec fn n_dogs(self) -> int {
        self.dog_food().len() as int
    }

    /// The number of interned foods.
    pub open spec fn n_foods(self) -> int {
        self.food_ingredient().len() as int
    }

    /// The number of interned ingredients.
    pub open spec fn n_ingredients(self) -> int {
        self.ingredient_flavor().len() as int
    }

    /// The number of interned flavors.
    pub open spec fn n_flavors(self) -> int {
        self.flavor_ingredient().len() as int
    }

    /// The size of the compact-token cache: the largest code space.
    pub open spec fn cache_size(self) -> int {
        max2(max2(self.n_dogs(), self.n_foods()), max2(self.n_ingredients(), self.n_flavors()))
    }

    /// Referential closure of the whole model: every code space fits the
    /// `u16` code width, every neighbor list of every table is non-empty
    /// and points into the partner code space, the reverse tables cover
    /// their code spaces, and the token cache holds the encoding of every
    /// code.  This holds of every `Mapping` value.
    pub open spec fn consistent(self) -> bool {
        &&& self.n_dogs() <= 0x10000
        &&& self.n_foods() <= 0x10000
        &&& self.n_ingredients() <= 0x10000
        &&& self.n_flavors() <= 0x10000
        &&& self.food_dog().len() == self.n_foods()
        &&& self.ingredient_food().len() == self.n_ingredients()
        &&& table_ok(self.dog_food(), self.n_foods())
        &&& table_ok(self.food_ingredient(), self.n_ingredients())
        &&& table_ok(self.ingredient_flavor(), self.n_flavors())
        &&& table_ok(self.flavor_ingredient(), self.n_ingredients())
        &&& table_ok(self.ingredient_food(), self.n_foods())
        &&& table_ok(self.food_dog(), self.n_dogs())
        &&& self.cache().len() == self.cache_size()
        &&& forall|i: int| 0 <= i < self.cache().len() ==> #[trigger] self.cache()[i] == encode3(
            i as u16,
        )
        &&& self.names_of(EntityKind::Dog).len() == self.n_dogs()
        &&& self.names_of(EntityKind::Food).len() == self.n_foods()
        &&& self.names_of(EntityKind::Ingredient).len() == self.n_ingredients()
        &&& self.names_of(EntityKind::Flavor).len() == self.n_flavors()
    }

    /// Referential closure: every `Mapping` value satisfies `consistent`,
    /// so a walk can never reach a code whose neighbor list is empty or
    /// out of range.  `use_type_invariant` hands the fact to any holder.
    #[verifier::type_invariant]
    pub open spec fn inv(self) -> bool {
        self.consistent()
    }

    /// The dog codes of the model, in ascending order.
    pub fn dogs(&self) -> (r: Vec<u16>)
        ensures
            r@.len() == self.n_dogs(),
            forall|i: int| 0 <= i < r@.len() ==> #[trigger] r@[i] == i as u16,
    {
        proof {
            use_type_invariant(self);
        }
        let n = self.dog_food_map.len();
        let mut r: Vec<u16> = Vec::new();
        let mut i: usize = 0;
        while i < n
            invariant
                n <= 0x10000,
                0 <= i <= n,
                r@.len() == i,
                forall|j: int| 0 <= j < i ==> #[trigger] r@[j] == j as u16,
            decreases n - i,
        {
            r.push(i as u16);
            i = i + 1;
        }
        r
    }

    /// The compact three-byte token of a code.  The caller must size the
    /// code from the model: tokens exist for every code of every space.
    pub fn id(&self, id: u16) -> (r: [u8; 3])
        requires
            id < self.cache_size(),
        ensures
            r@ == encode3(id),
    {
        proof {
            use_type_invariant(self);
            assert(self.cache()[id as int] == encode3(id));
            assert(self.cache()[id as int] == self.base64_cache@[id as int]@);
        }
        self.base64_cache[id as usize]
    }

    /// A uniformly drawn food liked by `dog`.
    pub fn food_liked_by_dog(&self, dog: u16, rng: &mut WalkRng) -> (r: Result<u16, Error>)
        ensures
            match r {
                Ok(f) => dog < self.n_dogs() && self.dog_food()[dog as int].contains(f) && f
                    < self.n_foods(),
                Err(e) => e == Error::UnknownCode && dog >= self.n_dogs(),
            },
    {
        proof {
            use_type_invariant(self);
        }
        if (dog as usize) < self.dog_food_map.len() {
            let list = &self.dog_food_map[dog as usize];
            proof {
                assert(list_ok(self.dog_food()[dog as int], self.n_foods()));
            }
            if list.len() == 0 {
                return Err(Error::EmptyAdjacency);
            }
            let idx = rng.next_below(list.len());
            let f = list[idx];
            proof {
                assert(self.dog_food()[dog as int][idx as int] == f);
                assert(self.dog_food()[dog as int].contains(f));
            }
            Ok(f)
        } else {
            Err(Error::UnknownCode)
        }
    }

    /// A uniformly drawn ingredient of `food`.
    pub fn ingredient_in_food(&self, food: u16, rng: &mut WalkRng) -> (r: Result<u16, Error>)
        ensures
            match r {
                Ok(g) => food < self.n_foods() && self.food_ingredient()[food as int].contains(g)
                    && g < self.n_ingredients(),
                Err(e) => e == Error::UnknownCode && food >= self.n_foods(),
            },
    {
        proof {
            use_type_invariant(self);
        }
        if (food as usize) < self.food_ingredient_map.len() {
            let list = &self.food_ingredient_map[food as usize];
            proof {
                assert(list_ok(self.food_ingredient()[food as int], self.n_ingredients()));
            }
            if list.len() == 0 {
                return Err(Error::EmptyAdjacency);
            }
            let idx = rng.next_below(list.len());
            let g = list[idx];
            proof {
                assert(self.food_ingredient()[food as int][idx as int] == g);
                assert(self.food_ingredient()[food as int].contains(g));
            }
            Ok(g)
        } else {
            Err(Error::UnknownCode)
        }
    }

    /// A uniformly drawn flavor of `ingredient`.
    pub fn flavor_for_ingredient(&self, ingredient: u16, rng: &mut WalkRng) -> (r: Result<
        u16,
        Error,
    >)
        ensures
            match r {
                Ok(v) => ingredient < self.n_ingredients()
                    && self.ingredient_flavor()[ingredient as int].contains(v)
                    && v < self.n_flavors(),
                Err(e) => e == Error::UnknownCode && ingredient >= self.n_ingredients(),
            },
    {
        proof {
            use_type_invariant(self);
        }
        if (ingredient as usize) < self.ingredient_flavor_map.len() {
            let list = &self.ingredient_flavor_map[ingredient as usize];
            proof {
                assert(list_ok(self.ingredient_flavor()[ingredient as int], self.n_flavors()));
            }
            if list.len() == 0 {
                return Err(Error::EmptyAdjacency);
            }
            let idx = rng.next_below(list.len());
            let v = list[idx];
            proof {
                assert(self.ingredient_flavor()[ingredient as int][idx as int] == v);
                assert(self.ingredient_flavor()[ingredient as int].contains(v));
            }
            Ok(v)
        } else {
            Err(Error::UnknownCode)
        }
    }

    /// A uniformly drawn ingredient with `flavor`.
    pub fn ingredient_with_flavor(&self, flavor: u16, rng: &mut WalkRng) -> (r: Result<u16, Error>)
        ensures
            match r {
                Ok(g) => flavor < self.n_flavors()
                    && self.flavor_ingredient()[flavor as int].contains(g)
                    && g < self.n_ingredients(),
                Err(e) => e == Error::UnknownCode && flavor >= self.n_flavors(),
            },
    {
        proof {
            use_type_invariant(self);
        }
        if (flavor as usize) < self.flavor_ingredient_map.len() {
            let list = &self.flavor_ingredient_map[flavor as usize];
            proof {
                assert(list_ok(self.flavor_ingredient()[flavor as int], self.n_ingredients()));
            }
            if list.len() == 0 {
                return Err(Error::EmptyAdjacency);
            }
            let idx = rng.next_below(list.len());
            let g = list[idx];
            proof {
                assert(self.flavor_ingredient()[flavor as int][idx as int] == g);
                assert(self.flavor_ingredient()[flavor as int].contains(g));
            }
            Ok(g)
        } else {
            Err(Error::UnknownCode)
        }
    }

    /// A uniformly drawn food containing `ingredient`.
    pub fn food_with_ingredient(&self, ingredient: u16, rng: &mut WalkRng) -> (r: Result<
        u16,
        Error,
    >)
        ensures
            match r {
                Ok(f) => ingredient < self.n_ingredients()
                    && self.ingredient_food()[ingredient as int].contains(f)
                    && f < self.n_foods(),
                Err(e) => e == Error::UnknownCode && ingredient >= self.n_ingredients(),
            },
    {
        proof {
            use_type_invariant(self);
        }
        if (ingredient as usize) < self.ingredient_food_map.len() {
            let list = &self.ingredient_food_map[ingredient as usize];
            proof {
                assert(list_ok(self.ingredient_food()[ingredient as int], self.n_foods()));
            }
            if list.len() == 0 {
                return Err(Error::EmptyAdjacency);
            }
            let idx = rng.next_below(list.len());
            let f = list[idx];
            proof {
                assert(self.ingredient_food()[ingredient as int][idx as int] == f);
                assert(self.ingredient_food()[ingredient as int].contains(f));
            }
            Ok(f)
        } else {
            Err(Error::UnknownCode)
        }
    }

    /// A uniformly drawn dog that likes `food`.
    pub fn dog_that_likes_food(&self, food: u16, rng: &mut WalkRng) -> (r: Result<u16, Error>)
        ensures
            match r {
                Ok(d) => food < self.n_foods() && self.food_dog()[food as int].contains(d) && d
                    < self.n_dogs(),
                Err(e) => e == Error::UnknownCode && food >= self.n_foods(),
            },
    {
        proof {
            use_type_invariant(self);
        }
        if (food as usize) < self.food_dog_map.len() {
            let list = &self.food_dog_map[food as usize];
            proof {
                assert(list_ok(self.food_dog()[food as int], self.n_dogs()));
            }
            if list.len() == 0 {
                return Err(Error::EmptyAdjacency);
            }
            let idx = rng.next_below(list.len());
            let d = list[idx];
            proof {
                assert(self.food_dog()[food as int][idx as int] == d);
                assert(self.food_dog()[food as int].contains(d));
            }
            Ok(d)
        } else {
            Err(Error::UnknownCode)
        }
    }

    /// The original name of a code, for reverse lookup.
    pub fn string_for(&self, kind: EntityKind, code: u16) -> (r: Result<&Vec<u8>, Error>)
        ensures
            match r {
                Ok(name) => code < self.names_of(kind).len()
                    && name@ == self.names_of(kind)[code as int],
                Err(e) => e == Error::UnknownCode && code >= self.names_of(kind).len(),
            },
    {
        let table = match kind {
            EntityKind::Dog => &self.dog_names,
            EntityKind::Food => &self.food_names,
            EntityKind::Ingredient => &self.ingredient_names,
            EntityKind::Flavor => &self.flavor_names,
        };
        if (code as usize) < table.len() {
            Ok(&table[code as usize])
        } else {
            Err(Error::UnknownCode)
        }
    }

    /// Build the whole model from the three relation files: parse, run
    /// the four filtering passes, intern every entity, build the six
    /// adjacency tables, and precompute the token cache.
    ///
    /// Succeeds exactly when every line of every file splits into two
    /// comma-separated fields (`MalformedRecord` otherwise) and every
    /// filtered code space fits the `u16` code width (`UnknownCode`
    /// otherwise).
    pub fn new(
        dog_food_file: &[u8],
        food_ingredient_file: &[u8],
        ingredient_flavor_file: &[u8],
    ) -> (r: Result<Mapping, Error>)
        ensures
            ({
                let df0 = crate::parse::parse_recs(dog_food_file@);
                let fi0 = crate::parse::parse_recs(food_ingredient_file@);
                let fl0 = crate::parse::parse_recs(ingredient_flavor_file@);
                let all_ok = crate::parse::parse_ok(dog_food_file@) && crate::parse::parse_ok(
                    food_ingredient_file@,
                ) && crate::parse::parse_ok(ingredient_flavor_file@);
                let df = kept_df(df0, fi0, fl0);
                let fi = kept_fi(df0, fi0, fl0);
                let fl = kept_if(df0, fi0, fl0);
                let dog_keys = first_seen(lefts(df));
                let food_keys = first_seen(rights(df));
                let ing_keys = first_seen(rights(fi));
                let flavor_keys = first_seen(rights(fl));
                let caps = dog_keys.len() <= 0x10000 && food_keys.len() <= 0x10000
                    && ing_keys.len() <= 0x10000 && flavor_keys.len() <= 0x10000;
                match r {
                    Ok(m) => all_ok && caps && m.names_of(EntityKind::Dog) == dog_keys
                        && m.names_of(EntityKind::Food) == food_keys && m.names_of(
                        EntityKind::Ingredient,
                    ) == ing_keys && m.names_of(EntityKind::Flavor) == flavor_keys && m.dog_food()
                        == forward_lists(df, dog_keys, food_keys) && m.food_dog()
                        == reverse_lists(df, dog_keys, food_keys) && m.food_ingredient()
                        == forward_lists(fi, food_keys, ing_keys) && m.ingredient_food()
                        == reverse_lists(fi, food_keys, ing_keys) && m.ingredient_flavor()
                        == forward_lists(fl, ing_keys, flavor_keys) && m.flavor_ingredient()
                        == reverse_lists(fl, ing_keys, flavor_keys),
                    Err(e) => (e == Error::MalformedRecord && !all_ok) || (e == Error::UnknownCode
                        && all_ok && !caps),
                }
            }),
    {
        let ghost df0 = crate::parse::parse_recs(dog_food_file@);
        let ghost fi0 = crate::parse::parse_recs(food_ingredient_file@);
        let ghost fl0 = crate::parse::parse_recs(ingredient_flavor_file@);
        let (dog_food_lines, food_ingredient_lines, ingredient_flavor_lines) =
            match Self::get_filtered_lines(
            dog_food_file,
            food_ingredient_file,
            ingredient_flavor_file,
        ) {
            Ok(t) => t,
            Err(e) => {
                return Err(e);
            },
        };
        let ghost df = kept_df(df0, fi0, fl0);
        let ghost fi = kept_fi(df0, fi0, fl0);
        let ghost fl = kept_if(df0, fi0, fl0);
        let ghost fi1 = kept_fi_first(df0, fi0);
        let ghost dog_keys = first_seen(lefts(df));
        let ghost food_keys = first_seen(rights(df));
        let ghost ing_keys = first_seen(rights(fi));
        let ghost flavor_keys = first_seen(rights(fl));
        proof {
            lemma_keep_left_props(fi0, df0);  // fi1 members come from fi0, lefts in rights(df0)
            lemma_keep_left_props(fl0, fi1);  // fl members, lefts in rights(fi1)
            lemma_keep_right_props(fi1, fl);  // fi members, rights in lefts(fl)
            lemma_keep_right_props(df0, fi);  // df members, rights in lefts(fi)
            // Every left name of the surviving food-ingredient records is an
            // interned food: its food survives in the re-filtered dog-food list.
            assert forall|j: int| 0 <= j < fi.len() implies food_keys.contains(
                (#[trigger] fi[j]).0,
            ) by {
                assert(fi1.contains(fi[j]));
                let q = choose|q: int| 0 <= q < fi1.len() && fi1[q] == fi[j];
                assert(rights(df0).contains(fi1[q].0));
                let p = choose|p: int| 0 <= p < rights(df0).len() && rights(df0)[p] == fi[j].0;
                assert(df0[p].1 == fi[j].0);
                assert(lefts(fi)[j] == fi[j].0);
                assert(lefts(fi).contains(df0[p].1));
                assert(kept_df(df0, fi0, fl0).contains(df0[p]));
                let s = choose|s: int| 0 <= s < df.len() && df[s] == df0[p];
                assert(rights(df)[s] == fi[j].0);
                assert(rights(df).contains(fi[j].0));
                lemma_first_seen_contains(rights(df), fi[j].0);
            }
            // Every left name of the surviving ingredient-flavor records is an
            // interned ingredient: its record survives in the re-filtered list.
            assert forall|j: int| 0 <= j < fl.len() implies ing_keys.contains(
                (#[trigger] fl[j]).0,
            ) by {
                assert(rights(fi1).contains(fl[j].0));
                let q = choose|q: int| 0 <= q < rights(fi1).len() && rights(fi1)[q] == fl[j].0;
                assert(fi1[q].1 == fl[j].0);
                assert(lefts(fl)[j] == fl[j].0);
                assert(lefts(fl).contains(fi1[q].1));
                assert(kept_fi(df0, fi0, fl0).contains(fi1[q]));
                let s = choose|s: int| 0 <= s < fi.len() && fi[s] == fi1[q];
                assert(rights(fi)[s] == fl[j].0);
                assert(rights(fi).contains(fl[j].0));
                lemma_first_seen_contains(rights(fi), fl[j].0);
            }
        }
        let t = match Self::maps_from_lines(
            dog_food_lines,
            food_ingredient_lines,
            ingredient_flavor_lines,
        ) {
            Ok(t) => t,
            Err(e) => {
                return Err(e);
            },
        };
        proof {
            assert(t.dog_food@.len() == tables_view(t.dog_food@).len());
            assert(t.food_ingredient@.len() == tables_view(t.food_ingredient@).len());
            assert(t.ingredient_flavor@.len() == tables_view(t.ingredient_flavor@).len());
            assert(t.flavor_ingredient@.len() == tables_view(t.flavor_ingredient@).len());
        }
        let base64_cache = Self::build_base64_cache(
            &t.dog_food,
            &t.food_ingredient,
            &t.ingredient_flavor,
            &t.flavor_ingredient,
        );
        proof {
            lemma_first_seen_distinct(lefts(df));
            lemma_first_seen_distinct(rights(df));
            lemma_first_seen_distinct(rights(fi));
            lemma_first_seen_distinct(rights(fl));
            // Own-column containment, used by the range arguments.
            assert forall|j: int| 0 <= j < df.len() implies dog_keys.contains(
                (#[trigger] df[j]).0,
            ) && food_keys.contains(df[j].1) by {
                assert(lefts(df)[j] == df[j].0);
                assert(lefts(df).contains(df[j].0));
                lemma_first_seen_contains(lefts(df), df[j].0);
                assert(rights(df)[j] == df[j].1);
                assert(rights(df).contains(df[j].1));
                lemma_first_seen_contains(rights(df), df[j].1);
            }
            assert forall|j: int| 0 <= j < fi.len() implies ing_keys.contains(
                (#[trigger] fi[j]).1,
            ) by {
                assert(rights(fi)[j] == fi[j].1);
                assert(rights(fi).contains(fi[j].1));
                lemma_first_seen_contains(rights(fi), fi[j].1);
            }
            assert forall|j: int| 0 <= j < fl.len() implies flavor_keys.contains(
                (#[trigger] fl[j]).1,
            ) by {
                assert(rights(fl)[j] == fl[j].1);
                assert(rights(fl).contains(fl[j].1));
                lemma_first_seen_contains(rights(fl), fl[j].1);
            }
            // Dog-to-food buckets: non-empty, codes in range.
            assert forall|k: int| 0 <= k < dog_keys.len() implies list_ok(
                #[trigger] tables_view(t.dog_food@)[k],
                food_keys.len() as int,
            ) by {
                lemma_first_seen_sub(lefts(df), k);
                let j = choose|j: int| 0 <= j < lefts(df).len() && lefts(df)[j] == dog_keys[k];
                assert(df[j].0 == dog_keys[k]);
                lemma_code_of(dog_keys, df[j].0);
                lemma_forward_bucket_nonempty(df, dog_keys, food_keys, k, j);
                lemma_forward_bucket_vals(df, dog_keys, food_keys, k);
                assert(tables_view(t.dog_food@)[k] == forward_bucket(df, dog_keys, food_keys, k));
            }
            // Food-to-dog buckets.
            assert forall|k: int| 0 <= k < food_keys.len() implies list_ok(
                #[trigger] tables_view(t.food_dog@)[k],
                dog_keys.len() as int,
            ) by {
                lemma_first_seen_sub(rights(df), k);
                let j = choose|j: int| 0 <= j < rights(df).len() && rights(df)[j] == food_keys[k];
                assert(df[j].1 == food_keys[k]);
                lemma_code_of(food_keys, df[j].1);
                lemma_reverse_bucket_nonempty(df, dog_keys, food_keys, k, j);
                lemma_reverse_bucket_vals(df, dog_keys, food_keys, k);
                assert(tables_view(t.food_dog@)[k] == reverse_bucket(df, dog_keys, food_keys, k));
            }
            // Food-to-ingredient buckets: every interned food kept at least
            // one ingredient record, because the dog-food list was re-filtered
            // by the surviving foods.
            assert forall|k: int| 0 <= k < food_keys.len() implies list_ok(
                #[trigger] tables_view(t.food_ingredient@)[k],
                ing_keys.len() as int,
            ) by {
                lemma_first_seen_sub(rights(df), k);
                let j = choose|j: int| 0 <= j < rights(df).len() && rights(df)[j] == food_keys[k];
                assert(df[j].1 == food_keys[k]);
                assert(lefts(fi).contains(df[j].1));
                let j2 = choose|j2: int| 0 <= j2 < lefts(fi).len() && lefts(fi)[j2] == food_keys[k];
                assert(fi[j2].0 == food_keys[k]);
                lemma_code_of(food_keys, fi[j2].0);
                lemma_forward_bucket_nonempty(fi, food_keys, ing_keys, k, j2);
                lemma_forward_bucket_vals(fi, food_keys, ing_keys, k);
                assert(tables_view(t.food_ingredient@)[k] == forward_bucket(
                    fi,
                    food_keys,
                    ing_keys,
                    k,
                ));
            }
            // Ingredient-to-food buckets.
            assert forall|k: int| 0 <= k < ing_keys.len() implies list_ok(
                #[trigger] tables_view(t.ingredient_food@)[k],
                food_keys.len() as int,
            ) by {
                lemma_first_seen_sub(rights(fi), k);
                let j = choose|j: int| 0 <= j < rights(fi).len() && rights(fi)[j] == ing_keys[k];
                assert(fi[j].1 == ing_keys[k]);
                lemma_code_of(ing_keys, fi[j].1);
                lemma_reverse_bucket_nonempty(fi, food_keys, ing_keys, k, j);
                lemma_reverse_bucket_vals(fi, food_keys, ing_keys, k);
                assert(tables_view(t.ingredient_food@)[k] == reverse_bucket(
                    fi,
                    food_keys,
                    ing_keys,
                    k,
                ));
            }
            // Ingredient-to-flavor buckets: every interned ingredient kept a
            // flavor record, because the food-ingredient list was re-filtered
            // by the ingredients that have one.
            assert forall|k: int| 0 <= k < ing_keys.len() implies list_ok(
                #[trigger] tables_view(t.ingredient_flavor@)[k],
                flavor_keys.len() as int,
            ) by {
                lemma_first_seen_sub(rights(fi), k);
                let j = choose|j: int| 0 <= j < rights(fi).len() && rights(fi)[j] == ing_keys[k];
                assert(fi[j].1 == ing_keys[k]);
                assert(lefts(fl).contains(fi[j].1));
                let j2 = choose|j2: int| 0 <= j2 < lefts(fl).len() && lefts(fl)[j2] == ing_keys[k];
                assert(fl[j2].0 == ing_keys[k]);
                lemma_code_of(ing_keys, fl[j2].0);
                lemma_forward_bucket_nonempty(fl, ing_keys, flavor_keys, k, j2);
                lemma_forward_bucket_vals(fl, ing_keys, flavor_keys, k);
                assert(tables_view(t.ingredient_flavor@)[k] == forward_bucket(
                    fl,
                    ing_keys,
                    flavor_keys,
                    k,
                ));
            }
            // Flavor-to-ingredient buckets.
            assert forall|k: int| 0 <= k < flavor_keys.len() implies list_ok(
                #[trigger] tables_view(t.flavor_ingredient@)[k],
                ing_keys.len() as int,
            ) by {
                lemma_first_seen_sub(rights(fl), k);
                let j = choose|j: int| 0 <= j < rights(fl).len() && rights(fl)[j] == flavor_keys[k];
                assert(fl[j].1 == flavor_keys[k]);
                lemma_code_of(flavor_keys, fl[j].1);
                lemma_reverse_bucket_nonempty(fl, ing_keys, flavor_keys, k, j);
                lemma_reverse_bucket_vals(fl, ing_keys, flavor_keys, k);
                assert(tables_view(t.flavor_ingredient@)[k] == reverse_bucket(
                    fl,
                    ing_keys,
                    flavor_keys,
                    k,
                ));
            }
        }
        let m = Mapping {
            base64_cache,
            dog_food_map: t.dog_food,
            food_ingredient_map: t.food_ingredient,
            ingredient_flavor_map: t.ingredient_flavor,
            flavor_ingredient_map: t.flavor_ingredient,
            ingredient_food_map: t.ingredient_food,
            food_dog_map: t.food_dog,
            dog_names: t.dog_names,
            food_names: t.food_names,
            ingredient_names: t.ingredient_names,
            flavor_names: t.flavor_names,
        };
        Ok(m)
    }

    /// Parse one relation file into its record list.
    pub fn get_lines(file: &[u8]) -> (r: Result<Vec<(Vec<u8>, Vec<u8>)>, Error>)
        ensures
            match r {
                Ok(rs) => crate::parse::parse_ok(file@) && recs_view(rs@)
                    == crate::parse::parse_recs(file@),
                Err(e) => e == Error::MalformedRecord && !crate::parse::parse_ok(file@),
            },
    {
        crate::parse::parse_relation(file)
    }

    /// Parse the three relation files and run the four filtering passes,
    /// in their fixed order.  The result is the three mutually consistent
    /// relation lists that the adjacency build consumes.
    pub fn get_filtered_lines(
        dog_food_file: &[u8],
        food_ingredient_file: &[u8],
        ingredient_flavor_file: &[u8],
    ) -> (r: Result<
        (Vec<(Vec<u8>, Vec<u8>)>, Vec<(Vec<u8>, Vec<u8>)>, Vec<(Vec<u8>, Vec<u8>)>),
        Error,
    >)
        ensures
            ({
                let df0 = crate::parse::parse_recs(dog_food_file@);
                let fi0 = crate::parse::parse_recs(food_ingredient_file@);
                let fl0 = crate::parse::parse_recs(ingredient_flavor_file@);
                let all_ok = crate::parse::parse_ok(dog_food_file@) && crate::parse::parse_ok(
                    food_ingredient_file@,
                ) && crate::parse::parse_ok(ingredient_flavor_file@);
                match r {
                    Ok(t) => all_ok && recs_view(t.0@) == kept_df(df0, fi0, fl0) && recs_view(
                        t.1@,
                    ) == kept_fi(df0, fi0, fl0) && recs_view(t.2@) == kept_if(df0, fi0, fl0),
                    Err(e) => e == Error::MalformedRecord && !all_ok,
                }
            }),
    {
        let df = match Self::get_lines(dog_food_file) {
            Ok(v) => v,
            Err(e) => {
                return Err(e);
            },
        };
        let fi = match Self::get_lines(food_ingredient_file) {
            Ok(v) => v,
            Err(e) => {
                return Err(e);
            },
        };
        let fl = match Self::get_lines(ingredient_flavor_file) {
            Ok(v) => v,
            Err(e) => {
                return Err(e);
            },
        };
        let fi1 = crate::rel::filter_left_in_rights(&fi, &df);
        let fl1 = crate::rel::filter_left_in_rights(&fl, &fi1);
        let fi2 = crate::rel::filter_right_in_lefts(&fi1, &fl1);
        let df1 = crate::rel::filter_right_in_lefts(&df, &fi2);
        Ok((df1, fi2, fl1))
    }

    /// Intern the three filtered relations and build the six adjacency
    /// tables by one linear scan each: no deduplication, list order is
    /// record order, and a repeated pair keeps its multiplicity, which is
    /// its sampling weight.
    ///
    /// Fails with `UnknownCode` exactly when a code space overflows the
    /// `u16` width or a record names an entity its key table lacks;
    /// neither happens for the output of a valid filtering pass.
    pub fn maps_from_lines(
        dog_food_lines: Vec<(Vec<u8>, Vec<u8>)>,
        food_ingredient_lines: Vec<(Vec<u8>, Vec<u8>)>,
        ingredient_flavor_lines: Vec<(Vec<u8>, Vec<u8>)>,
    ) -> (r: Result<ModelTables, Error>)
        ensures
            ({
                let df = recs_view(dog_food_lines@);
                let fi = recs_view(food_ingredient_lines@);
                let fl = recs_view(ingredient_flavor_lines@);
                let dog_keys = first_seen(lefts(df));
                let food_keys = first_seen(rights(df));
                let ing_keys = first_seen(rights(fi));
                let flavor_keys = first_seen(rights(fl));
                let caps = dog_keys.len() <= 0x10000 && food_keys.len() <= 0x10000
                    && ing_keys.len() <= 0x10000 && flavor_keys.len() <= 0x10000;
                let refs = (forall|j: int|
                    0 <= j < fi.len() ==> food_keys.contains((#[trigger] fi[j]).0)) && (forall|
                    j: int,
                |
                    0 <= j < fl.len() ==> ing_keys.contains((#[trigger] fl[j]).0));
                match r {
                    Ok(t) => caps && refs && names_view(t.dog_names@) == dog_keys && names_view(
                        t.food_names@,
                    ) == food_keys && names_view(t.ingredient_names@) == ing_keys && names_view(
                        t.flavor_names@,
                    ) == flavor_keys && tables_view(t.dog_food@) == forward_lists(
                        df,
                        dog_keys,
                        food_keys,
                    ) && tables_view(t.food_dog@) == reverse_lists(df, dog_keys, food_keys)
                        && tables_view(t.food_ingredient@) == forward_lists(
                        fi,
                        food_keys,
                        ing_keys,
                    ) && tables_view(t.ingredient_food@) == reverse_lists(fi, food_keys, ing_keys)
                        && tables_view(t.ingredient_flavor@) == forward_lists(
                        fl,
                        ing_keys,
                        flavor_keys,
                    ) && tables_view(t.flavor_ingredient@) == reverse_lists(
                        fl,
                        ing_keys,
                        flavor_keys,
                    ),
                    Err(e) => e == Error::UnknownCode && !(caps && refs),
                }
            }),
    {
        let ghost df = recs_view(dog_food_lines@);
        let ghost fi = recs_view(food_ingredient_lines@);
        let ghost fl = recs_view(ingredient_flavor_lines@);
        let dog_names = match intern_column(&dog_food_lines, false) {
            Ok(v) => v,
            Err(e) => {
                return Err(e);
            },
        };
        let food_names = match intern_column(&dog_food_lines, true) {
            Ok(v) => v,
            Err(e) => {
                return Err(e);
            },
        };
        let ingredient_names = match intern_column(&food_ingredient_lines, true) {
            Ok(v) => v,
            Err(e) => {
                return Err(e);
            },
        };
        let flavor_names = match intern_column(&ingredient_flavor_lines, true) {
            Ok(v) => v,
            Err(e) => {
                return Err(e);
            },
        };
        proof {
            lemma_first_seen_distinct(lefts(df));
            lemma_first_seen_distinct(rights(df));
            lemma_first_seen_distinct(rights(fi));
            lemma_first_seen_distinct(rights(fl));
            assert forall|j: int| 0 <= j < df.len() implies first_seen(lefts(df)).contains(
                (#[trigger] df[j]).0,
            ) && first_seen(rights(df)).contains(df[j].1) by {
                assert(lefts(df)[j] == df[j].0);
                assert(lefts(df).contains(df[j].0));
                lemma_first_seen_contains(lefts(df), df[j].0);
                assert(rights(df)[j] == df[j].1);
                assert(rights(df).contains(df[j].1));
                lemma_first_seen_contains(rights(df), df[j].1);
            }
            assert forall|j: int| 0 <= j < fi.len() implies first_seen(rights(fi)).contains(
                (#[trigger] fi[j]).1,
            ) by {
                assert(rights(fi)[j] == fi[j].1);
                assert(rights(fi).contains(fi[j].1));
                lemma_first_seen_contains(rights(fi), fi[j].1);
            }
            assert forall|j: int| 0 <= j < fl.len() implies first_seen(rights(fl)).contains(
                (#[trigger] fl[j]).1,
            ) by {
                assert(rights(fl)[j] == fl[j].1);
                assert(rights(fl).contains(fl[j].1));
                lemma_first_seen_contains(rights(fl), fl[j].1);
            }
        }
        let (dog_food, food_dog) = match fill_tables(&dog_food_lines, &dog_names, &food_names) {
            Ok(t) => t,
            Err(_) => {
                proof {
                    assert(false);
                }
                return Err(Error::UnknownCode);
            },
        };
        let (food_ingredient, ingredient_food) = match fill_tables(
            &food_ingredient_lines,
            &food_names,
            &ingredient_names,
        ) {
            Ok(t) => t,
            Err(e) => {
                return Err(e);
            },
        };
        let (ingredient_flavor, flavor_ingredient) = match fill_tables(
            &ingredient_flavor_lines,
            &ingredient_names,
            &flavor_names,
        ) {
            Ok(t) => t,
            Err(e) => {
                return Err(e);
            },
        };
        Ok(
            ModelTables {
                dog_food,
                food_dog,
                food_ingredient,
                ingredient_food,
                ingredient_flavor,
                flavor_ingredient,
                dog_names,
                food_names,
                ingredient_names,
                flavor_names,
            },
        )
    }

    /// The compact token of one code.
    pub fn base64_encode(idx: u16) -> (r: [u8; 3])
        ensures
            r@ == encode3(idx),
    {
        encode_code(idx)
    }

    /// Precompute the token of every code up to the largest code space.
    pub fn build_base64_cache(
        dog_food_map: &Vec<Vec<u16>>,
        food_ingredient_map: &Vec<Vec<u16>>,
        ingredient_flavor_map: &Vec<Vec<u16>>,
        flavor_ingredient_map: &Vec<Vec<u16>>,
    ) -> (r: Vec<[u8; 3]>)
        requires
            dog_food_map@.len() <= 0x10000,
            food_ingredient_map@.len() <= 0x10000,
            ingredient_flavor_map@.len() <= 0x10000,
            flavor_ingredient_map@.len() <= 0x10000,
        ensures
            r@.len() == max2(
                max2(dog_food_map@.len() as int, food_ingredient_map@.len() as int),
                max2(ingredient_flavor_map@.len() as int, flavor_ingredient_map@.len() as int),
            ),
            forall|i: int| 0 <= i < r@.len() ==> (#[trigger] r@[i])@ == encode3(i as u16),
    {
        let mut longest = dog_food_map.len();
        if food_ingredient_map.len() > longest {
            longest = food_ingredient_map.len();
        }
        if ingredient_flavor_map.len() > longest {
            longest = ingredient_flavor_map.len();
        }
        if flavor_ingredient_map.len() > longest {
            longest = flavor_ingredient_map.len();
        }
        let mut cache: Vec<[u8; 3]> = Vec::new();
        let mut i: usize = 0;
        while i < longest
            invariant
                longest <= 0x10000,
                0 <= i <= longest,
                cache@.len() == i,
                forall|j: int| 0 <= j < i ==> (#[trigger] cache@[j])@ == encode3(j as u16),
            decreases longest - i,
        {
            cache.push(encode_code(i as u16));
            i = i + 1;
        }
        cache
    }

    /// The persisted mapping artifact for one entity type: one line per
    /// entity, `original_string,compact_code`, in code order, newline
    /// separated.  Written once per run and never read back.
    pub fn mapping_file_content(&self, kind: EntityKind) -> (r: Vec<u8>)
        ensures
            r@ == artifact_content(self.names_of(kind)),
    {
        proof {
            use_type_invariant(self);
        }
        let names = match kind {
            EntityKind::Dog => &self.dog_names,
            EntityKind::Food => &self.food_names,
            EntityKind::Ingredient => &self.ingredient_names,
            EntityKind::Flavor => &self.flavor_names,
        };
        let ghost nv = names_view(names@);
        let n = names.len();
        let mut out: Vec<u8> = Vec::new();
        let mut i: usize = 0;
        proof {
            assert(nv.take(0) =~= Seq::<Seq<u8>>::empty());
            assert(out@ =~= artifact_content(nv.take(0)));
        }
        while i < n
            invariant
                n == names@.len(),
                n <= 0x10000,
                nv == names_view(names@),
                0 <= i <= n,
                out@ == artifact_content(nv.take(i as int)),
            decreases n - i,
        {
            proof {
                assert(nv.take(i + 1).drop_last() =~= nv.take(i as int));
                assert(nv.take(i + 1).last() == nv[i as int]);
            }
            if i > 0 {
                out.push(10u8);
            }
            let ghost mid = out@;
            let name = &names[i];
            let m = name.len();
            let mut j: usize = 0;
            while j < m
                invariant
                    m == name@.len(),
                    0 <= j <= m,
                    out@ =~= mid + name@.take(j as int),
                decreases m - j,
            {
                out.push(name[j]);
                j = j + 1;
            }
            proof {
                assert(name@.take(m as int) =~= name@);
            }
            out.push(44u8);
            let tok = Self::base64_encode(i as u16);
            out.push(tok[0]);
            out.push(tok[1]);
            out.push(tok[2]);
            proof {
                assert(tok@ =~= seq![tok@[0], tok@[1], tok@[2]]);
                assert(nv[i as int] == names@[i as int]@);
                if i == 0 {
                    assert(artifact_content(nv.take(1)) == artifact_line(nv[0], 0));
                    assert(out@ =~= artifact_line(nv[0], 0));
                } else {
                    assert(out@ =~= artifact_content(nv.take(i as int)) + seq![10u8]
                        + artifact_line(nv[i as int], i as int));
                }
            }
            i = i + 1;
        }
        proof {
            assert(nv.take(n as int) =~= nv);
        }
        out
    }

    /// The dog-to-food table, for inspection.
    pub fn dog_food_map(&self) -> (r: &Vec<Vec<u16>>)
        ensures
            tables_view(r@) == self.dog_food(),
    {
        &self.dog_food_map
    }

    /// The food-to-ingredient table, for inspection.
    pub fn food_ingredient_map(&self) -> (r: &Vec<Vec<u16>>)
        ensures
            tables_view(r@) == self.food_ingredient(),
    {
        &self.food_ingredient_map
    }

    /// The ingredient-to-flavor table, for inspection.
    pub fn ingredient_flavor_map(&self) -> (r: &Vec<Vec<u16>>)
        ensures
            tables_view(r@) == self.ingredient_flavor(),
    {
        &self.ingredient_flavor_map
    }

    /// The flavor-to-ingredient table, for inspection.
    pub fn flavor_ingredient_map(&self) -> (r: &Vec<Vec<u16>>)
        ensures
            tables_view(r@) == self.flavor_ingredient(),
    {
        &self.flavor_ingredient_map
    }

    /// The ingredient-to-food table, for inspection.
    pub fn ingredient_food_map(&self) -> (r: &Vec<Vec<u16>>)
        ensures
            tables_view(r@) == self.ingredient_food(),
    {
        &self.ingredient_food_map
    }

    /// The food-to-dog table, for inspection.
    pub fn food_dog_map(&self) -> (r: &Vec<Vec<u16>>)
        ensures
            tables_view(r@) == self.food_dog(),
    {
        &self.food_dog_map
    }
}

} // verus!
