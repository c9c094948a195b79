use time_tracker::date::{from_day_number, Date};
use time_tracker::store::{InputLine, Storage, StoreError};

fn d(year: i64, month: u8, day: u8) -> Date {
    Date { year, month, day }
}

#[test]
fn build_storage() {
    let storage = Storage::build("").unwrap();
    assert_eq!(storage.records.len(), 0);
}

#[test]
fn fetch_line() {
    let storage = Storage::build("11-11-2022,10").unwrap();
    assert_eq!(storage.records.len(), 1);
    assert_eq!(storage.records[0], InputLine { date: d(2022, 11, 11), blocks: 10 });
}

#[test]
fn get_previous_generic() {
    let storage = Storage::build("21-10-2022,8\n11-11-2022,10").unwrap();

    let end = d(2022, 11, 11);
    let previous = storage.get_previous(end, 30);

    // correct len
    assert_eq!(previous.len(), 30);

    // correct ordering
    previous.windows(2).for_each(|p| assert!(p[0].date.before(&p[1].date)));

    // correct input
    let mid = d(2022, 10, 21);
    for il in previous {
        if il.date == end {
            assert_eq!(il.blocks, 10);
        } else if il.date == mid {
            assert_eq!(il.blocks, 8);
        } else {
            assert_eq!(il.blocks, 0);
        }
    }
}

#[test]
fn gap_filling_counts() {
    let storage = Storage::build("21-10-2022,8\n11-11-2022,10").unwrap();
    let previous = storage.get_previous(d(2022, 11, 11), 30);
    assert_eq!(previous.len(), 30);
    let zeros = previous.iter().filter(|il| il.blocks == 0).count();
    assert_eq!(zeros, 28);
    assert_eq!(previous[0].date, d(2022, 10, 13));
    assert_eq!(previous[29].date, d(2022, 11, 11));
    assert_eq!(previous[8].date, d(2022, 10, 21));
    assert_eq!(previous[8].blocks, 8);
}

#[test]
fn increment_value_existing() {
    let mut storage = Storage::build("11-11-2022,10").unwrap();
    let date = d(2022, 11, 11);
    storage.increment_or_insert_date(date);
    assert_eq!(storage.records.len(), 1);
    assert_eq!(storage.records[0], InputLine { date, blocks: 11 });
}

#[test]
fn increment_value_non_existing() {
    let mut storage = Storage::build("11-11-2022,10").unwrap();
    let date = d(2022, 11, 12);
    storage.increment_or_insert_date(date);
    assert_eq!(storage.blocks_at(date), 1);
    assert_eq!(storage.blocks_at(d(2022, 11, 11)), 10);
}

#[test]
fn increments_accumulate() {
    let mut storage = Storage::new();
    let date = d(2022, 11, 11);
    for _ in 0..5 {
        storage.increment_or_insert_date(date);
    }
    assert_eq!(storage.blocks_at(date), 5);
    assert_eq!(storage.records.len(), 1);
}

#[test]
fn input_line_impl_display() {
    let date = d(2022, 1, 1);
    let input_line = InputLine { date, blocks: 21 };

    assert_eq!(input_line.render(), "1-1-2022,21");
}

#[test]
fn read_previous_days_generic() {
    let storage = Storage::build("10-10-2022,2\n20-10-2022,5\n11-11-2022,3").unwrap();

    let date = d(2022, 11, 1);
    let prev_days = storage.read_previous_days(date, 30);

    // check for correct input
    for input_line in prev_days {
        let blocks = input_line.blocks;
        match input_line.date.day {
            10 => assert_eq!(2, blocks),
            20 => assert_eq!(5, blocks),
            _ => assert_eq!(0, blocks),
        }
    }

    // check input is in valid order
    storage.records.windows(2).for_each(|p| assert!(p[0].date.before(&p[1].date)));
}

#[test]
fn update_disk_generic() {
    let content = "25-10-22,7\n5-11-22,5";
    let storage = Storage::build(content).unwrap();
    assert_eq!(storage.render(), content);

    let reloaded = Storage::build(storage.render().as_str()).unwrap();
    assert_eq!(reloaded.records, storage.records);
}

#[test]
fn alter_line_newinput() {
    let mut storage = Storage::build("10-10-2022,2\n20-10-2022,5\n11-11-2022,3").unwrap();

    let date = d(2022, 11, 1);
    storage.alter_line(date, 5);

    // check for correct input
    for input_line in storage.records.iter() {
        let blocks = input_line.blocks;
        match input_line.date.day {
            10 => assert_eq!(2, blocks),
            20 => assert_eq!(5, blocks),
            11 => assert_eq!(3, blocks),
            1 => assert_eq!(5, blocks),
            _ => panic!(),
        }
    }

    // check input is in valid order
    storage.records.windows(2).for_each(|p| assert!(p[0].date.before(&p[1].date)));
}

#[test]
fn alter_line_changeinput() {
    let mut storage = Storage::build("10-10-2022,2\n20-10-2022,5\n11-11-2022,3").unwrap();

    let date = d(2022, 10, 20);
    storage.alter_line(date, -5);

    // check for correct input
    for input_line in storage.records.iter() {
        let blocks = input_line.blocks;
        match input_line.date.day {
            10 => assert_eq!(2, blocks),
            20 => assert_eq!(0, blocks),
            11 => assert_eq!(3, blocks),
            _ => panic!(),
        }
    }

    // check input is in valid order
    storage.records.windows(2).for_each(|p| assert!(p[0].date.before(&p[1].date)));
}

#[test]
fn init_twice_is_idempotent() {
    let first = Storage::init(Some("21-10-2022,8\n11-11-2022,10")).unwrap();
    let text = first.render();
    let second = Storage::init(Some(text.as_str())).unwrap();
    assert_eq!(second.records, first.records);
    assert_eq!(second.render(), text);
}

#[test]
fn init_without_text_is_empty() {
    let storage = Storage::init(None).unwrap();
    assert_eq!(storage.records.len(), 0);
}

#[test]
fn build_rejects_malformed_line() {
    assert_eq!(Storage::build("garbage").unwrap_err(), StoreError::MalformedLine);
    assert_eq!(Storage::build("1-1-2022").unwrap_err(), StoreError::MalformedLine);
    assert_eq!(Storage::build("1-13-2022,5").unwrap_err(), StoreError::MalformedLine);
    assert_eq!(Storage::build("32-1-2022,5").unwrap_err(), StoreError::MalformedLine);
    assert_eq!(Storage::build("29-2-2021,1").unwrap_err(), StoreError::MalformedLine);
    assert_eq!(Storage::build("1-1-2022,5\nbroken").unwrap_err(), StoreError::MalformedLine);
}

#[test]
fn build_accepts_leap_day() {
    let storage = Storage::build("29-2-2020,1").unwrap();
    assert_eq!(storage.records[0].date, d(2020, 2, 29));
}

#[test]
fn build_rejects_out_of_order() {
    assert_eq!(
        Storage::build("11-11-2022,10\n10-10-2022,2").unwrap_err(),
        StoreError::OutOfOrder
    );
    assert_eq!(
        Storage::build("11-11-2022,10\n11-11-2022,2").unwrap_err(),
        StoreError::OutOfOrder
    );
}

#[test]
fn parse_from_str_round_trip() {
    let il = InputLine::parse_from_str("21-10-2022,8");
    assert_eq!(il, InputLine { date: d(2022, 10, 21), blocks: 8 });
    assert_eq!(il.render(), "21-10-2022,8");
}

#[test]
fn pred_crosses_boundaries() {
    assert_eq!(d(2022, 1, 1).pred(), d(2021, 12, 31));
    assert_eq!(d(2020, 3, 1).pred(), d(2020, 2, 29));
    assert_eq!(d(2021, 3, 1).pred(), d(2021, 2, 28));
    assert_eq!(d(2022, 11, 1).pred(), d(2022, 10, 31));
    assert_eq!(d(2022, 11, 11).pred(), d(2022, 11, 10));
}

#[test]
fn day_numbers_reach_calendar_days() {
    assert_eq!(from_day_number(0), d(1970, 1, 1));
    assert_eq!(from_day_number(365), d(1971, 1, 1));
    assert_eq!(from_day_number(19307), d(2022, 11, 11));
}

#[test]
fn empty_store_yields_all_zero_series() {
    let storage = Storage::new();
    let previous = storage.get_previous(d(2022, 11, 11), 7);
    assert_eq!(previous.len(), 7);
    for il in &previous {
        assert_eq!(il.blocks, 0);
    }
    assert_eq!(previous[6].date, d(2022, 11, 11));
    assert_eq!(previous[0].date, d(2022, 11, 5));
}

#[test]
fn date_new_checks_validity() {
    assert_eq!(Date::new(2022, 11, 11), Some(d(2022, 11, 11)));
    assert_eq!(Date::new(2022, 2, 29), None);
    assert_eq!(Date::new(2020, 2, 29), Some(d(2020, 2, 29)));
    assert_eq!(Date::new(2022, 13, 1), None);
    assert_eq!(Date::new(2022, 0, 1), None);
    assert_eq!(Date::new(2022, 4, 31), None);
}
