use build_your_own::redis::{parse_input, Redis};

const NOW: u64 = 1_700_000_000_000;

#[test]
fn parse_input_test() {
    let result = parse_input("*1\r\n$4\r\nPING\r\n");
    assert_eq!(result, vec![b"PING".to_vec()]);

    let result = parse_input("*2\r\n$4\r\nECHO\r\n$11\r\nHello World");
    assert_eq!(result, vec![b"ECHO".to_vec(), b"Hello World".to_vec()]);
}

#[test]
fn pong() {
    let mut redis = Redis::default();

    let output = redis.process("*1\r\n$4\r\nPING", NOW);
    assert_eq!(output, b"+PONG\r\n");
}

#[test]
fn set() {
    let mut redis = Redis::default();

    let output = redis.process("*3\r\n$3\r\nSET\r\n$4\r\nName\r\n$4\r\nJohn\r\n", NOW);
    assert_eq!(output, b"+OK\r\n");

    let output = redis.process("*2\r\n$3\r\nGET\r\n$4\r\nName\r\n", NOW);
    assert_eq!(output, b"+John\r\n");
}

#[test]
fn set_expire() {
    let mut redis = Redis::default();
    let instant = NOW;

    let output = redis.process(
        "*5\r\n$3\r\nSET\r\n$4\r\nName\r\n$4\r\nJohn\r\n$2\r\nEX\r\n$2\r\n60\r\n",
        instant,
    );
    assert_eq!(output, b"+OK\r\n");

    let output = redis.process("*2\r\n$3\r\nGET\r\n$4\r\nName\r\n", instant + 59 * 1000);
    assert_eq!(output, b"+John\r\n");

    let output = redis.process("*2\r\n$3\r\nGET\r\n$4\r\nName\r\n", instant + 60 * 1000);
    assert_eq!(output, b"$-1\r\n");
}

#[test]
fn get_missing() {
    let mut redis = Redis::default();

    let output = redis.process("*2\r\n$3\r\nGET\r\n$4\r\nName\r\n", NOW);

    assert_eq!(output, b"$-1\r\n");
}

#[test]
fn echo() {
    let mut redis = Redis::default();
    let output = redis.process("*2\r\n$4\r\nECHO\r\n$11\r\nHello World", NOW);
    assert_eq!(output, b"+Hello World\r\n");
}

#[test]
fn echo_missing_arguments() {
    let mut redis = Redis::default();
    let output = redis.process("*1\r\n$4\r\nECHO\r\n", NOW);
    assert_eq!(output, b"-ERR wrong number of arguments for command\r\n");
}

#[test]
fn echo_too_many_arguments() {
    let mut redis = Redis::default();
    let output = redis.process("*3\r\n$4\r\nECHO\r\n$1\r\nN\r\n$1\r\nB\r\n", NOW);
    assert_eq!(output, b"-ERR wrong number of arguments for command\r\n");
}

#[test]
fn unknown_command() {
    let mut redis = Redis::default();
    let output = redis.process("*1\r\n$4\r\nCIAO\r\n", NOW);
    assert_eq!(output, b"-unknown command 'CIAO'\r\n");
}

#[test]
fn set_overwrites_and_keeps_other_keys() {
    let mut redis = Redis::default();
    redis.process("*3\r\n$3\r\nSET\r\n$1\r\na\r\n$1\r\n1\r\n", NOW);
    redis.process("*3\r\n$3\r\nSET\r\n$1\r\nb\r\n$1\r\n2\r\n", NOW);
    redis.process("*3\r\n$3\r\nSET\r\n$1\r\na\r\n$1\r\n3\r\n", NOW);
    assert_eq!(redis.process("*2\r\n$3\r\nGET\r\n$1\r\na\r\n", NOW), b"+3\r\n");
    assert_eq!(redis.process("*2\r\n$3\r\nGET\r\n$1\r\nb\r\n", NOW), b"+2\r\n");
}

#[test]
fn malformed_requests_get_errors() {
    let mut redis = Redis::default();
    assert_eq!(redis.process("", NOW), b"-ERR wrong number of arguments for command\r\n");
    assert_eq!(
        redis.process("*2\r\n$3\r\nGET\r\n", NOW),
        b"-ERR wrong number of arguments for command\r\n"
    );
    assert_eq!(
        redis.process("*4\r\n$3\r\nSET\r\n$1\r\na\r\n$1\r\n1\r\n$2\r\nEX\r\n", NOW),
        b"-ERR wrong number of arguments for command\r\n"
    );
    assert_eq!(
        redis.process("*5\r\n$3\r\nSET\r\n$1\r\na\r\n$1\r\n1\r\n$2\r\nEX\r\n$2\r\nx1\r\n", NOW),
        b"-ERR value is not an integer or out of range\r\n"
    );
    assert_eq!(
        redis.process(
            "*5\r\n$3\r\nSET\r\n$1\r\na\r\n$1\r\n1\r\n$2\r\nEX\r\n$20\r\n99999999999999999999\r\n",
            NOW
        ),
        b"-ERR value is not an integer or out of range\r\n"
    );
    assert_eq!(redis.process("*2\r\n$3\r\nGET\r\n$1\r\na\r\n", NOW), b"$-1\r\n");
}
