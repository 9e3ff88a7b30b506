use orx_concurrent_vec::ConcurrentVec;

fn storages() -> Vec<ConcurrentVec<String>> {
    vec![
        ConcurrentVec::new(),
        ConcurrentVec::with_fixed_capacity(3000),
        ConcurrentVec::with_linear_growth(6, 40),
        ConcurrentVec::with_linear_growth(10, 10),
    ]
}

fn expected_values(num_writers: usize, num_items_per_writer: usize) -> Vec<String> {
    let mut expected: Vec<String> = (0..num_writers)
        .flat_map(|i| (0..num_items_per_writer).map(move |j| (i * 100000 + j).to_string()))
        .collect();
    expected.sort();
    expected
}

/// Reads every position up to beyond the length, as a reader running beside the writers does.
fn read_all(vec: &ConcurrentVec<String>) -> usize {
    let len = vec.len();
    let mut total = 0;
    for i in 0..(len + 100) {
        match vec.get(i) {
            Some(elem) => {
                assert!(i < len);
                total += elem.map(|x| x.len());
            }
            None => assert!(i >= len),
        }
    }
    total
}

#[test]
fn interleaved_extends_and_reads_collect_every_value() {
    let (num_writers, num_items_per_writer, batch_size) = (4, 128, 32);
    for mut vec in storages() {
        for j in (0..num_items_per_writer).step_by(batch_size) {
            // every writer takes its batch of positions before any of them writes
            let mut pending = Vec::new();
            for i in 0..num_writers {
                let begin = vec.reserve_positions(batch_size);
                pending.push((i, begin));
                read_all(&vec);
            }
            // the writers finish in the reverse order
            while let Some((i, begin)) = pending.pop() {
                for k in 0..batch_size {
                    vec.write_reserved(begin + k, (i * 100000 + j + k).to_string());
                }
                read_all(&vec);
            }
        }
        assert_eq!(vec.len(), num_writers * num_items_per_writer);
        let mut values = vec.to_vec();
        values.sort();
        assert_eq!(values, expected_values(num_writers, num_items_per_writer));
    }
}

#[test]
fn interleaved_pushes_updates_and_reads() {
    let (num_writers, num_items_per_writer) = (4, 64);
    for mut vec in storages() {
        for j in 0..num_items_per_writer {
            for i in 0..num_writers {
                vec.push((i * 100000 + j).to_string());
            }
            // an updater moves every value one up, and then one down again
            for up in [true, false] {
                let len = vec.len();
                for k in 0..(len + 100) {
                    if let Some(value) = vec.get_mut(k) {
                        let number: i64 = value.parse().unwrap();
                        let updated = if up { number + 1 } else { number - 1 };
                        *value = updated.to_string();
                    } else {
                        assert!(k >= len);
                    }
                }
                // a reader clones what is written
                let cloned: usize = (0..len).filter_map(|k| vec.get_cloned(k)).count();
                assert_eq!(cloned, len);
            }
        }
        assert_eq!(vec.len(), num_writers * num_items_per_writer);
        let mut values = vec.to_vec();
        values.sort();
        assert_eq!(values, expected_values(num_writers, num_items_per_writer));
    }
}
