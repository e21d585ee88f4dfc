use loaded::uri::UriProvider;

fn collect_uris(provider: &mut UriProvider, n: usize) -> Vec<String> {
    let mut out = Vec::new();
    for _ in 0..n {
        out.push(provider.next());
    }
    out
}

#[test]
fn uri_no_depth_single_obj() {
    let mut s = UriProvider::new(
        "http://10.0.1.24:9003".to_string(),
        "bucket".to_string(),
        "my-dude".to_string(),
        0,
        1,
        0,
    );

    let expected = vec![
        "http://10.0.1.24:9003/bucket/my-dude0".to_string(),
        "http://10.0.1.24:9003/bucket/my-dude0".to_string(),
        "http://10.0.1.24:9003/bucket/my-dude0".to_string(),
    ];

    let actual = collect_uris(&mut s, 3);
    assert_eq!(expected, actual);
}

#[test]
fn uri_no_depth_multi_obj() {
    let mut s = UriProvider::new(
        "http://10.0.1.24:9003".to_string(),
        "bucket".to_string(),
        "my-dude".to_string(),
        0,
        2,
        0,
    );

    let expected = vec![
        "http://10.0.1.24:9003/bucket/my-dude0".to_string(),
        "http://10.0.1.24:9003/bucket/my-dude1".to_string(),
        "http://10.0.1.24:9003/bucket/my-dude0".to_string(),
    ];

    let actual = collect_uris(&mut s, 3);
    assert_eq!(expected, actual);
}

#[test]
fn uri_one_depth_single_obj() {
    let mut s = UriProvider::new(
        "http://10.0.1.24:9003".to_string(),
        "bucket".to_string(),
        "my-dude".to_string(),
        1,
        1,
        1,
    );

    let expected = vec![
        "http://10.0.1.24:9003/bucket/0/my-dude0".to_string(),
        "http://10.0.1.24:9003/bucket/0/my-dude0".to_string(),
        "http://10.0.1.24:9003/bucket/0/my-dude0".to_string(),
    ];

    let actual = collect_uris(&mut s, 3);
    assert_eq!(expected, actual);
}

#[test]
fn uri_one_depth_multi_obj() {
    let mut s = UriProvider::new(
        "http://10.0.1.24:9003".to_string(),
        "bucket".to_string(),
        "my-dude".to_string(),
        1,
        2,
        1,
    );

    let expected = vec![
        "http://10.0.1.24:9003/bucket/0/my-dude0".to_string(),
        "http://10.0.1.24:9003/bucket/0/my-dude1".to_string(),
        "http://10.0.1.24:9003/bucket/0/my-dude0".to_string(),
    ];

    let actual = collect_uris(&mut s, 3);
    assert_eq!(expected, actual);
}

#[test]
fn uri_multi_depth_single_obj() {
    let mut s = UriProvider::new(
        "http://10.0.1.24:9003".to_string(),
        "bucket".to_string(),
        "my-dude".to_string(),
        2,
        1,
        2,
    );

    let expected = vec![
        "http://10.0.1.24:9003/bucket/0/0/my-dude0".to_string(),
        "http://10.0.1.24:9003/bucket/0/1/my-dude0".to_string(),
        "http://10.0.1.24:9003/bucket/1/0/my-dude0".to_string(),
        "http://10.0.1.24:9003/bucket/1/1/my-dude0".to_string(),
        "http://10.0.1.24:9003/bucket/0/0/my-dude0".to_string(),
    ];

    let actual = collect_uris(&mut s, 5);
    assert_eq!(expected, actual);
}

#[test]
fn uri_multi_depth_multi_obj() {
    let mut s = UriProvider::new(
        "http://10.0.1.24:9003".to_string(),
        "bucket".to_string(),
        "my-dude".to_string(),
        2,
        2,
        2,
    );

    let expected = vec![
        "http://10.0.1.24:9003/bucket/0/0/my-dude0".to_string(),
        "http://10.0.1.24:9003/bucket/0/0/my-dude1".to_string(),
        "http://10.0.1.24:9003/bucket/0/1/my-dude0".to_string(),
        "http://10.0.1.24:9003/bucket/0/1/my-dude1".to_string(),
        "http://10.0.1.24:9003/bucket/1/0/my-dude0".to_string(),
        "http://10.0.1.24:9003/bucket/1/0/my-dude1".to_string(),
        "http://10.0.1.24:9003/bucket/1/1/my-dude0".to_string(),
        "http://10.0.1.24:9003/bucket/1/1/my-dude1".to_string(),
        "http://10.0.1.24:9003/bucket/0/0/my-dude0".to_string(),
        "http://10.0.1.24:9003/bucket/0/0/my-dude1".to_string(),
    ];

    let actual = collect_uris(&mut s, 10);
    assert_eq!(expected, actual);
}

#[test]
fn s3_engine_no_depth_single_obj() {
    let mut s = UriProvider::new(
        "http://10.0.1.24:9003".to_string(),
        "bucket".to_string(),
        "my-dude".to_string(),
        0,
        1,
        0,
    );

    let expected = vec![
        "http://10.0.1.24:9003/bucket/my-dude0".to_string(),
        "http://10.0.1.24:9003/bucket/my-dude0".to_string(),
        "http://10.0.1.24:9003/bucket/my-dude0".to_string(),
    ];

    let actual = collect_uris(&mut s, 3);
    assert_eq!(expected, actual);
}

#[test]
fn s3_engine_no_depth_multi_obj() {
    let mut s = UriProvider::new(
        "http://10.0.1.24:9003".to_string(),
        "bucket".to_string(),
        "my-dude".to_string(),
        0,
        2,
        0,
    );

    let expected = vec![
        "http://10.0.1.24:9003/bucket/my-dude0".to_string(),
        "http://10.0.1.24:9003/bucket/my-dude1".to_string(),
        "http://10.0.1.24:9003/bucket/my-dude0".to_string(),
    ];

    let actual = collect_uris(&mut s, 3);
    assert_eq!(expected, actual);
}

#[test]
fn s3_engine_one_depth_single_obj() {
    let mut s = UriProvider::new(
        "http://10.0.1.24:9003".to_string(),
        "bucket".to_string(),
        "my-dude".to_string(),
        1,
        1,
        1,
    );

    let expected = vec![
        "http://10.0.1.24:9003/bucket/0/my-dude0".to_string(),
        "http://10.0.1.24:9003/bucket/0/my-dude0".to_string(),
        "http://10.0.1.24:9003/bucket/0/my-dude0".to_string(),
    ];

    let actual = collect_uris(&mut s, 3);
    assert_eq!(expected, actual);
}

#[test]
fn s3_engine_one_depth_multi_obj() {
    let mut s = UriProvider::new(
        "http://10.0.1.24:9003".to_string(),
        "bucket".to_string(),
        "my-dude".to_string(),
        1,
        2,
        1,
    );

    let expected = vec![
        "http://10.0.1.24:9003/bucket/0/my-dude0".to_string(),
        "http://10.0.1.24:9003/bucket/0/my-dude1".to_string(),
        "http://10.0.1.24:9003/bucket/0/my-dude0".to_string(),
    ];

    let actual = collect_uris(&mut s, 3);
    assert_eq!(expected, actual);
}

#[test]
fn s3_engine_multi_depth_single_obj() {
    let mut s = UriProvider::new(
        "http://10.0.1.24:9003".to_string(),
        "bucket".to_string(),
        "my-dude".to_string(),
        2,
        1,
        2,
    );

    let expected = vec![
        "http://10.0.1.24:9003/bucket/0/0/my-dude0".to_string(),
        "http://10.0.1.24:9003/bucket/0/1/my-dude0".to_string(),
        "http://10.0.1.24:9003/bucket/1/0/my-dude0".to_string(),
        "http://10.0.1.24:9003/bucket/1/1/my-dude0".to_string(),
        "http://10.0.1.24:9003/bucket/0/0/my-dude0".to_string(),
    ];

    let actual = collect_uris(&mut s, 5);
    assert_eq!(expected, actual);
}

#[test]
fn s3_engine_multi_depth_multi_obj() {
    let mut s = UriProvider::new(
        "http://10.0.1.24:9003".to_string(),
        "bucket".to_string(),
        "my-dude".to_string(),
        2,
        2,
        2,
    );

    let expected = vec![
        "http://10.0.1.24:9003/bucket/0/0/my-dude0".to_string(),
        "http://10.0.1.24:9003/bucket/0/0/my-dude1".to_string(),
        "http://10.0.1.24:9003/bucket/0/1/my-dude0".to_string(),
        "http://10.0.1.24:9003/bucket/0/1/my-dude1".to_string(),
        "http://10.0.1.24:9003/bucket/1/0/my-dude0".to_string(),
        "http://10.0.1.24:9003/bucket/1/0/my-dude1".to_string(),
        "http://10.0.1.24:9003/bucket/1/1/my-dude0".to_string(),
        "http://10.0.1.24:9003/bucket/1/1/my-dude1".to_string(),
        "http://10.0.1.24:9003/bucket/0/0/my-dude0".to_string(),
        "http://10.0.1.24:9003/bucket/0/0/my-dude1".to_string(),
    ];

    let actual = collect_uris(&mut s, 10);
    assert_eq!(expected, actual);
}
