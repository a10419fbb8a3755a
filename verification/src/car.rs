//! The item pool: cars, each with an identifier and a lap time in
//! milliseconds, addressed by their position in the pool.

use vstd::prelude::*;

verus! {

/// One entry of the pool. Cars are equal when both fields are equal.
#[derive(Debug, Clone, PartialEq, Eq, Hash)]
pub struct Car {
    pub id: String,
    pub lap_time: u32,
}

/// Position of a car in the pool.
pub type CarIndex = usize;

/// Lap times of the cars that `indexes` selects, in the order of `indexes`.
pub open spec fn lap_times_of(cars: Seq<Car>, indexes: Seq<CarIndex>) -> Seq<int> {
    Seq::new(indexes.len(), |i: int| cars[indexes[i] as int].lap_time as int)
}

/// Lap times of the whole pool, in pool order.
pub open spec fn lap_times(cars: Seq<Car>) -> Seq<int> {
    Seq::new(cars.len(), |i: int| cars[i].lap_time as int)
}

/// Every entry of `indexes` addresses a car of a pool of `pool_len` cars.
pub open spec fn in_pool(indexes: Seq<CarIndex>, pool_len: nat) -> bool {
    forall|i: int| 0 <= i < indexes.len() ==> (#[trigger] indexes[i]) < pool_len
}

/// Every member of `indexes` addresses a car of a pool of `pool_len` cars.
pub open spec fn set_in_pool(indexes: Set<CarIndex>, pool_len: nat) -> bool {
    forall|x: CarIndex| indexes.contains(x) ==> x < pool_len
}

pub fn get_lap_time(cars: &[Car], index: CarIndex) -> (t: u32)
    requires
        index < cars@.len(),
    ensures
        t == cars@[index as int].lap_time,
{
    cars[index].lap_time
}

pub fn get_car_id(cars: &[Car], index: CarIndex) -> (id: &str)
    requires
        index < cars@.len(),
    ensures
        id@ == cars@[index as int].id@,
{
    cars[index].id.as_str()
}

} // verus!
