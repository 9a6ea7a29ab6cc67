use rand::prelude::StdRng;
use rand::{Rng, SeedableRng};
use shelf_crdt::clock::{DotClock, LamportTimestamp, LeafClock};
use shelf_crdt::shelf::Shelf;
use shelf_crdt::value::Value;

const WORDS: [&str; 24] = [
    "alpha", "bramble", "cedar", "dune", "ember", "fjord", "gale", "harbor", "isle", "juniper",
    "krill", "lagoon", "meadow", "nettle", "onyx", "pine", "quarry", "reef", "sable", "thicket",
    "umber", "vale", "willow", "yarrow",
];

struct ShelfFuzzer {
    rng: StdRng,
    depth_range: std::ops::Range<usize>,
    branch_range: std::ops::Range<usize>,
    value_range: std::ops::Range<usize>,
}

impl ShelfFuzzer {
    fn gen_keys(&mut self, n: usize) -> Vec<String> {
        let mut keys: Vec<String> = Vec::new();
        while keys.len() < n {
            let w = WORDS[self.rng.gen_range(0..WORDS.len())];
            if !keys.iter().any(|k| k == w) {
                keys.push(w.to_string());
            }
        }
        keys
    }

    fn sample_value(&mut self) -> Value {
        match self.rng.gen_range(0..4) {
            0 => Value::Str(WORDS[self.rng.gen_range(0..WORDS.len())].to_string()),
            1 => Value::Int(self.rng.gen_range(-1000..1000)),
            2 => Value::Bool(self.rng.gen()),
            _ => {
                let len = self.rng.gen_range(0..4);
                Value::Array((0..len).map(|_| Value::Int(self.rng.gen_range(0..100))).collect())
            }
        }
    }

    fn value_clock(&mut self, depth: usize, client_id: u64) -> LeafClock {
        let lo = depth.saturating_sub(2) as u64;
        let hi = (depth + 2) as u64;
        LeafClock::Dot(DotClock { client_id, clock: self.rng.gen_range(lo..hi) })
    }

    fn map_clock(&mut self, depth: usize) -> LamportTimestamp {
        let lo = depth.saturating_sub(2) as u64;
        let hi = (depth + 2) as u64;
        LamportTimestamp(self.rng.gen_range(lo..hi))
    }

    fn generate_children(&mut self, depth: usize, client_id: u64) -> Shelf {
        let mut entries: Vec<(String, Shelf)> = Vec::new();
        if depth <= self.rng.gen_range(self.depth_range.clone()) {
            let branches = self.rng.gen_range(self.branch_range.clone());
            for key in self.gen_keys(branches) {
                entries.push((key, self.generate_children(depth + 1, client_id)));
            }
        } else {
            let items = self.rng.gen_range(self.value_range.clone());
            for key in self.gen_keys(items) {
                let value = self.sample_value();
                let clock = self.value_clock(depth, client_id);
                entries.push((key, Shelf::Leaf { value, clock }));
            }
        }
        let clock = self.map_clock(depth);
        Shelf::Node { shelves: entries, clock }
    }

    fn generate_shelf(&mut self, client_id: u64) -> Shelf {
        self.generate_children(1, client_id)
    }
}

/// Procedurally generates shelf pairs and checks that one delta exchange
/// is commutative and that re-applying a delta changes nothing.
#[test]
fn test_generated_shelves() {
    let mut fuzzer = ShelfFuzzer {
        rng: StdRng::seed_from_u64(1),
        depth_range: 1..4,
        branch_range: 1..5,
        value_range: 0..20,
    };
    let num_tests: usize = 2000;
    for i in 0..num_tests {
        let mut shelf = fuzzer.generate_shelf(1);
        let mut shelf2 = fuzzer.generate_shelf(2);
        shelf.garbage_collect();
        shelf2.garbage_collect();

        if shelf == shelf2 {
            continue;
        }

        // Forwards
        let mut receiver = shelf.clone();
        let sender = shelf2.clone();
        let sv = receiver.get_state_vector();
        let delta = sender.get_state_delta(&sv);
        let cached_delta = delta.clone();
        if let Some(delta) = delta {
            receiver = receiver.merge(delta);
        }

        // Backwards
        let mut receiver_back = shelf2.clone();
        let sender_back = shelf.clone();
        let sv_back = receiver_back.get_state_vector();
        let delta_back = sender_back.get_state_delta(&sv_back);
        if let Some(delta) = delta_back {
            receiver_back = receiver_back.merge(delta);
        }

        // Ensure both forwards and backwards match
        assert_eq!(receiver, receiver_back, "Not commutative, pair {}", i);
        if let Some(delta) = cached_delta {
            receiver = receiver.merge(delta);
            assert_eq!(receiver, receiver_back, "Not idempotent, pair {}", i);
        }
    }
}
