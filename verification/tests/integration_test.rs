use cafce::error::CacheKeyError;
use cafce::setting::Key;

#[test]
fn test_setting_key_structure() {
    let key = Key {
        files: vec!["*.json".to_string(), "*.lock".to_string()],
        prefix: Some("v1".to_string()),
    };

    assert_eq!(key.files.len(), 2);
    assert_eq!(key.files[0], "*.json");
    assert_eq!(key.files[1], "*.lock");
    assert_eq!(key.prefix, Some("v1".to_string()));
}

#[test]
fn test_error_types() {
    let error = CacheKeyError::TooManyFiles { count: 60, limit: 50 };
    let error_string = error.message();
    assert!(error_string.contains("ファイル数が制限を超えています"));
    assert!(error_string.contains("60"));
    assert!(error_string.contains("50"));
}

#[test]
fn messages_of_all_failures() {
    assert_eq!(
        CacheKeyError::TooManyFiles { count: 60, limit: 50 }.message(),
        "ファイル数が制限を超えています: 60 > 50"
    );
    assert_eq!(
        CacheKeyError::TooManyFiles { count: 1, limit: 0 }.message(),
        "ファイル数が制限を超えています: 1 > 0"
    );
    assert_eq!(
        CacheKeyError::TooManyFiles { count: usize::MAX, limit: 1009 }.message(),
        format!("ファイル数が制限を超えています: {} > 1009", usize::MAX)
    );
    assert_eq!(
        CacheKeyError::FileReadError { path: "/r/a.txt".to_string() }.message(),
        "ファイルの読み込みに失敗しました: /r/a.txt"
    );
    assert_eq!(
        CacheKeyError::PatternMatchError { pattern: "a**".to_string() }.message(),
        "パターンマッチングに失敗しました: a**"
    );
    assert_eq!(CacheKeyError::HashCalculationError.message(), "ハッシュ計算に失敗しました");
}

#[test]
fn decimal_of_numbers() {
    assert_eq!(cafce::error::to_decimal(0), "0");
    assert_eq!(cafce::error::to_decimal(9), "9");
    assert_eq!(cafce::error::to_decimal(10), "10");
    assert_eq!(cafce::error::to_decimal(1234567890), "1234567890");
}
