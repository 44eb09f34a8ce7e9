//! Missile planning validation shared by controllers and replicas.
use vstd::prelude::*;
use crate::types::{SiloPlan, TypeKey};

verus! {

/// What plan validation reads of a type: whether it is a silo, and its production recipes.
#[derive(Debug, Clone, PartialEq, Eq)]
pub struct SiloCapability {
    pub silo: bool,
    pub recipes: Option<Vec<TypeKey>>,
}

pub open spec fn supports(recipes: Seq<TypeKey>, key: Seq<char>) -> bool {
    exists|i: int| 0 <= i < recipes.len() && (#[trigger] recipes[i])@ == key
}

/// A plan is valid for a silo that produces: at most 65536 launches, each of a missile the silo
/// produces, each aimed inside the map.
pub open spec fn plan_valid(def: SiloCapability, plan: SiloPlan, width: u16, height: u16) -> bool {
    &&& def.silo
    &&& def.recipes is Some
    &&& plan.launches@.len() <= 65536
    &&& forall|i: int| 0 <= i < plan.launches@.len() ==> {
        &&& supports(def.recipes->0@, (#[trigger] plan.launches@[i]).type_key@)
        &&& plan.launches@[i].target.x < width
        &&& plan.launches@[i].target.y < height
    }
}

fn recipe_listed(recipes: &Vec<TypeKey>, key: &TypeKey) -> (r: bool)
    ensures
        r == supports(recipes@, key@),
{
    let mut i: usize = 0;
    while i < recipes.len()
        invariant
            0 <= i <= recipes@.len(),
            forall|j: int| 0 <= j < i ==> recipes@[j]@ != key@,
        decreases recipes.len() - i,
    {
        if recipes[i] == *key {
            return true;
        }
        i += 1;
    }
    false
}

pub fn validate_silo_plan(def: &SiloCapability, plan: &SiloPlan, width: u16, height: u16) -> (r: Result<(), String>)
    ensures
        r is Ok <==> plan_valid(*def, *plan, width, height),
{
    let recipes = match &def.recipes {
        Some(r) => {
            if !def.silo {
                return Err("target is not a missile silo".to_string());
            }
            r
        },
        None => {
            return Err("target is not a missile silo".to_string());
        },
    };
    if plan.launches.len() > 65536 {
        return Err("too many queued launches".to_string());
    }
    let mut i: usize = 0;
    while i < plan.launches.len()
        invariant
            0 <= i <= plan.launches@.len(),
            def.silo,
            def.recipes == Some(*recipes),
            forall|j: int| 0 <= j < i ==> {
                &&& supports(recipes@, (#[trigger] plan.launches@[j]).type_key@)
                &&& plan.launches@[j].target.x < width
                &&& plan.launches@[j].target.y < height
            },
        decreases plan.launches.len() - i,
    {
        let launch = &plan.launches[i];
        if !recipe_listed(recipes, &launch.type_key) {
            return Err("missile is not supported by this silo".to_string());
        }
        if launch.target.x >= width || launch.target.y >= height {
            return Err("missile target is outside the map".to_string());
        }
        i += 1;
    }
    Ok(())
}

} // verus!
