use rtop_rs::chart::Chart;

fn lines(text: &str) -> Vec<String> {
    text.split_terminator('\n').map(|line| line.to_string()).collect()
}

/// How many dots of the right half of a cell are set, bottom to top.
fn right_level(cell: char) -> usize {
    let bits = if cell == ' ' { 0 } else { cell as u32 - 0x2800 };
    [0x80u32, 0x20, 0x10, 0x08].iter().filter(|dot| bits & **dot != 0).count()
}

#[test]
fn three_samples_with_label() {
    let chart = Chart::new(4, 2, true);
    let text = chart.display(&vec![10, 50, 90]);
    assert_eq!(text, " 90%\n  ⢀⣿\n");
    let rows = lines(&text);
    assert_eq!(rows.len(), 2);
    let glyphs: Vec<char> = rows[1].chars().collect();
    assert_eq!(glyphs.len(), 4);
    // The most recent sample is in the right half of the last cell, the
    // oldest one in the right half of the cell before it.
    assert_eq!(glyphs[3], '⣿');
    assert_eq!(glyphs[2], '⢀');
    assert_eq!(right_level(glyphs[3]), 4);
    assert_eq!(right_level(glyphs[2]), 1);
    assert!(right_level(glyphs[3]) > right_level(glyphs[2]));
}

#[test]
fn label_takes_the_top_row() {
    assert_eq!(Chart::new(4, 3, true).display(&vec![100, 100]), "100%\n   ⣿\n   ⣿\n");
    assert_eq!(Chart::new(4, 3, false).display(&vec![100, 100]), "   ⣿\n   ⣿\n   ⣿\n");
}

#[test]
fn full_and_empty_bars() {
    assert_eq!(Chart::new(3, 2, false).display(&vec![100, 0]), "  ⡇\n  ⣇\n");
}

#[test]
fn heights_round_to_the_nearest_quarter() {
    let chart = Chart::new(2, 1, false);
    // 31 % of four quarters is 1.24, 38 % is 1.52, 62 % is 2.48, 63 % is 2.52
    assert_eq!(chart.display(&vec![0, 31]), " ⣀\n");
    assert_eq!(chart.display(&vec![0, 38]), " ⣠\n");
    assert_eq!(chart.display(&vec![0, 62]), " ⣠\n");
    assert_eq!(chart.display(&vec![0, 63]), " ⣰\n");
    // 18 % of eight quarters is 1.44, 19 % is 1.52
    let taller = Chart::new(2, 2, false);
    assert_eq!(taller.display(&vec![0, 18]), "  \n ⣀\n");
    assert_eq!(taller.display(&vec![0, 19]), "  \n ⣠\n");
}

#[test]
fn single_sample_has_an_empty_slot_beside_it() {
    // The half without a sample stays empty.
    let chart = Chart::new(2, 1, false);
    assert_eq!(chart.display(&vec![38]), " ⢠\n");
    assert_eq!(chart.display(&vec![45]), " ⢠\n");
    assert_eq!(chart.display(&vec![100]), " ⢸\n");
    assert_eq!(Chart::new(4, 1, false).display(&vec![100, 50, 25]), "  ⢸⣄\n");
}

#[test]
fn only_the_most_recent_samples_are_drawn() {
    let columns: i32 = 3;
    let chart = Chart::new(columns, 2, true);
    let mut samples: Vec<i32> = Vec::new();
    for i in 0..(2 * columns + 5) {
        samples.push(i * 9 % 101);
    }
    let recent: Vec<i32> = samples[samples.len() - (2 * columns as usize - 1)..].to_vec();
    let mut other = vec![100, 100, 100, 0, 0, 0];
    other.extend_from_slice(&recent);
    assert_eq!(chart.display(&samples), chart.display(&recent));
    assert_eq!(chart.display(&samples), chart.display(&other));
    // five samples make three cells, which fill the three columns
    let rows = lines(&chart.display(&samples));
    assert_eq!(rows.len(), 2);
    assert_eq!(rows[1].chars().count(), 3);
    // each of the five counts: the oldest of them is in the first cell
    let mut lower = recent.clone();
    lower[0] = 0;
    let mut higher = recent.clone();
    higher[0] = 100;
    assert_ne!(chart.display(&lower), chart.display(&higher));
    assert_eq!(right_level(lines(&chart.display(&higher))[1].chars().next().unwrap()), 4);
}

#[test]
fn window_below_and_at_its_limit() {
    let chart = Chart::new(3, 1, false);
    assert_eq!(chart.display(&vec![100, 100, 100]), " ⢸⣿\n");
    assert_eq!(chart.display(&vec![100, 100, 100, 100]), " ⣿⣿\n");
    assert_eq!(chart.display(&vec![0, 100, 100, 100, 100]), "⢀⣿⣿\n");
    assert_eq!(chart.display(&vec![100, 0, 0, 0, 0]), "⢸⣀⣀\n");
    assert_eq!(chart.display(&vec![100, 0, 0, 0, 0, 0]), "⢀⣀⣀\n");
    assert_eq!(chart.display(&vec![100, 100, 0, 0, 0, 0, 0]), "⢀⣀⣀\n");
}

#[test]
fn raising_a_sample_never_lowers_its_cell() {
    let chart = Chart::new(2, 3, false);
    let mut last_levels = [0usize; 3];
    for sample in 0..=100 {
        let text = chart.display(&vec![0, sample]);
        let rows = lines(&text);
        assert_eq!(rows.len(), 3);
        for (row, line) in rows.iter().enumerate() {
            let level = right_level(line.chars().nth(1).unwrap());
            assert!(level >= last_levels[row], "sample {} row {}", sample, row);
            last_levels[row] = level;
        }
    }
    assert_eq!(last_levels, [4, 4, 4]);
}

#[test]
fn every_positive_sample_shows() {
    for rows in 1..6 {
        let chart = Chart::new(2, rows, false);
        for sample in 1..=100 {
            let text = chart.display(&vec![sample, sample]);
            let bottom = lines(&text).pop().unwrap();
            let cell = bottom.chars().nth(1).unwrap();
            assert_ne!(cell, ' ');
            let bits = cell as u32 - 0x2800;
            assert!(bits & 0x40 != 0 && bits & 0x80 != 0);
        }
    }
}

#[test]
fn values_out_of_range_are_drawn_within_the_cell() {
    let chart = Chart::new(2, 2, true);
    assert_eq!(chart.display(&vec![-5, 250]), "250%\n ⣸\n");
    assert_eq!(chart.display(&vec![250, -5]), "-5%\n ⣇\n");
    assert_eq!(chart.display(&vec![i32::MIN, i32::MAX]), "2147483647%\n ⣸\n");
    assert_eq!(chart.display(&vec![i32::MAX, i32::MIN]), "-2147483648%\n ⣇\n");
}

#[test]
fn degenerate_sizes_give_minimal_text() {
    assert_eq!(Chart::new(3, 2, false).display(&vec![]), "   \n   \n");
    assert_eq!(Chart::new(3, 2, true).display(&vec![]), "   \n");
    assert_eq!(Chart::new(3, 0, false).display(&vec![50, 50]), "");
    assert_eq!(Chart::new(3, -4, true).display(&vec![50, 50]), "50%\n");
    assert_eq!(Chart::new(3, 1, true).display(&vec![50, 50]), "50%\n");
    assert_eq!(Chart::new(0, 2, false).display(&vec![50, 50]), "\n\n");
    assert_eq!(Chart::new(-3, 2, true).display(&vec![50, 50]), "\n");
    assert_eq!(Chart::new(1, 2, true).display(&vec![50, 50]), "50%\n⢸\n");
    assert_eq!(Chart::new(i32::MAX, 0, false).display(&vec![1]), "");
    assert_eq!(Chart::new(i32::MIN, i32::MIN, true).display(&vec![1]), "");
}

#[test]
fn resize_changes_the_next_rendering() {
    let mut chart = Chart::new(4, 2, true);
    let samples = vec![10, 50, 90, 20, 30];
    assert_eq!(chart.display(&samples), " 30%\n ⢀⣿⣤\n");
    chart.resize(2, 3);
    assert_eq!(chart.display(&samples), "30%\n⢸ \n⢸⣼\n");
    chart.resize(4, 2);
    assert_eq!(chart.display(&samples), " 30%\n ⢀⣿⣤\n");
}
