use chomp::images::{image_check, image_sort, ImageData};

fn record(name: &str, date: Option<&str>) -> ImageData {
    ImageData {
        filename: name.to_string(),
        date_created: date.map(|d| d.to_string()),
        gps_coordinates: None,
    }
}

#[test]
fn image_sort_orders_by_date_oldest_first() {
    let images = vec![
        record("c.jpg", Some("2021:07:01 10:00:00")),
        record("a.jpg", Some("2019:01:15 08:30:00")),
        record("b.jpg", Some("2020:12:31 23:59:59")),
    ];
    let sorted = image_sort(images);
    let names: Vec<&str> = sorted.iter().map(|i| i.filename.as_str()).collect();
    assert_eq!(names, vec!["a.jpg", "b.jpg", "c.jpg"]);
}

#[test]
fn image_sort_puts_undated_records_first() {
    let images = vec![
        record("dated.jpg", Some("2020:01:01 00:00:00")),
        record("undated.jpg", None),
        record("older.jpg", Some("2010:06:06 06:06:06")),
    ];
    let sorted = image_sort(images);
    assert_eq!(sorted[0].filename, "undated.jpg");
    assert_eq!(sorted[1].filename, "older.jpg");
    assert_eq!(sorted[2].filename, "dated.jpg");
}

#[test]
fn image_sort_keeps_every_record() {
    let images = vec![
        record("x.png", Some("2022:02:02 02:02:02")),
        record("y.png", Some("2022:02:02 02:02:02")),
        record("z.png", None),
    ];
    let sorted = image_sort(images);
    assert_eq!(sorted.len(), 3);
    for name in ["x.png", "y.png", "z.png"] {
        assert!(sorted.iter().any(|i| i.filename == name));
    }
}

#[test]
fn image_sort_of_empty_is_empty() {
    let sorted = image_sort(Vec::new());
    assert!(sorted.is_empty());
}

#[test]
fn image_check_accepts_supported_extensions() {
    for ext in ["jpg", "JPG", "jPeG", "tiff", "TIF", "png", "Png"] {
        assert!(image_check(ext), "extension {:?}", ext);
    }
}

#[test]
fn image_check_rejects_other_extensions() {
    for ext in ["txt", "gif", "jpgx", "", "pn", "jpeg2"] {
        assert!(!image_check(ext), "extension {:?}", ext);
    }
}
