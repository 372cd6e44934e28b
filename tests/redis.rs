use redis_resp::data_type::DataType;
use redis_resp::redis::{classify, Reply};

#[test]
fn error_values_are_failures() {
    assert_eq!(
        Reply::Failure(String::from("ERR unknown command")),
        classify(DataType::Error(String::from("ERR unknown command")))
    );
}

#[test]
fn other_values_are_successes() {
    assert_eq!(Reply::Success(DataType::Int(2)), classify(DataType::Int(2)));
    assert_eq!(Reply::Success(DataType::Null), classify(DataType::Null));
    assert_eq!(
        Reply::Success(DataType::SimpleString(String::from("OK"))),
        classify(DataType::SimpleString(String::from("OK")))
    );
}
