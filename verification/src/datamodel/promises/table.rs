//! Which requests are served by which command.
use vstd::prelude::*;
use vstd::utf8::{encode_utf8, encode_utf8_decode_utf8};

use crate::datamodel::commands::{command_op, standard_commands, Command};
use crate::datamodel::registry::{arity_fits, dispatches, is_word};
use crate::engine::engine::{Failures, GeneralEngine};
use crate::engine::error::EngineErrorView;
use crate::engine::model::{Now, StoreView};
use crate::protocol::frame::{FrameView, RespVersion};
use crate::text::{ascii, lower_all, shown_text, upper_all};

verus! {

/// Requests with this name, in any letter case, are for the given command, and it takes exactly
/// that many arguments, the name included.
pub open spec fn takes(name: Seq<char>, n: nat, command: Command) -> bool {
    forall|args: Seq<Seq<u8>>|
        #![trigger args.len()]
        args.len() > 0 && is_word(args[0], name) ==> {
            let found = standard_commands();
            &&& found.contains_key(upper_all(args[0]))
            &&& found[upper_all(args[0])].handler == command
            &&& arity_fits(found[upper_all(args[0])].arity, args.len()) == (args.len() == n)
        }
}

/// Requests with this name, in any letter case, are for the given command, and it takes at least
/// that many arguments, the name included.
pub open spec fn takes_at_least(name: Seq<char>, n: nat, command: Command) -> bool {
    forall|args: Seq<Seq<u8>>|
        #![trigger args.len()]
        args.len() > 0 && is_word(args[0], name) ==> {
            let found = standard_commands();
            &&& found.contains_key(upper_all(args[0]))
            &&& found[upper_all(args[0])].handler == command
            &&& arity_fits(found[upper_all(args[0])].arity, args.len()) == (args.len() >= n)
        }
}

/// The standard commands hold the given one under this name.
pub open spec fn holds(name: Seq<char>, arity: int, command: Command) -> bool {
    &&& standard_commands().contains_key(encode_utf8(name))
    &&& standard_commands()[encode_utf8(name)].handler == command
    &&& standard_commands()[encode_utf8(name)].arity == arity
}

/// Each command is found under its name.
#[verifier::spinoff_prover]
#[verifier::rlimit(60)]
proof fn names_are_held()
    ensures
        holds("PING"@, -1, Command::Ping),
        holds("ECHO"@, 2, Command::Echo),
        holds("SET"@, -3, Command::SetValue),
        holds("GET"@, 2, Command::Get),
        holds("DEL"@, -2, Command::Del),
        holds("EXISTS"@, -2, Command::Exists),
        holds("TYPE"@, 2, Command::Type),
        holds("EXPIRE"@, 3, Command::Expire),
        holds("PEXPIRE"@, 3, Command::Pexpire),
        holds("TTL"@, 2, Command::Ttl),
        holds("PTTL"@, 2, Command::Pttl),
        holds("HSET"@, -4, Command::Hset),
        holds("HMSET"@, -4, Command::Hset),
        holds("HGET"@, 3, Command::Hget),
        holds("HMGET"@, -3, Command::Hmget),
        holds("HGETALL"@, 2, Command::Hgetall),
        holds("HDEL"@, -3, Command::Hdel),
        holds("HLEN"@, 2, Command::Hlen),
        holds("HEXISTS"@, 3, Command::Hexists),
        holds("SADD"@, -3, Command::Sadd),
        holds("SREM"@, -3, Command::Srem),
        holds("SISMEMBER"@, 3, Command::Sismember),
        holds("SMEMBERS"@, 2, Command::Smembers),
        holds("SCARD"@, 2, Command::Scard),
        holds("ZADD"@, -4, Command::Zadd),
        holds("ZSCORE"@, 3, Command::Zscore),
        holds("ZRANGE"@, -4, Command::Zrange),
        holds("ZRANGEBYSCORE"@, -4, Command::Zrangebyscore),
        holds("ZREM"@, -3, Command::Zrem),
        holds("ZCARD"@, 2, Command::Zcard),
        holds("LPUSH"@, -3, Command::Push),
        holds("RPUSH"@, -3, Command::Push),
        holds("LPOP"@, -2, Command::Pop),
        holds("RPOP"@, -2, Command::Pop),
        holds("LRANGE"@, 4, Command::Lrange),
        holds("LLEN"@, 2, Command::Llen),
        holds("DBSIZE"@, 1, Command::Dbsize),
        holds("RAWCOUNT"@, 1, Command::Rawcount),
        holds("COMPACT"@, 1, Command::Compact),
{
    reveal_strlit("PING");
    reveal_strlit("ECHO");
    reveal_strlit("SET");
    reveal_strlit("GET");
    reveal_strlit("DEL");
    reveal_strlit("EXISTS");
    reveal_strlit("TYPE");
    reveal_strlit("EXPIRE");
    reveal_strlit("PEXPIRE");
    reveal_strlit("TTL");
    reveal_strlit("PTTL");
    reveal_strlit("HSET");
    reveal_strlit("HMSET");
    reveal_strlit("HGET");
    reveal_strlit("HMGET");
    reveal_strlit("HGETALL");
    reveal_strlit("HDEL");
    reveal_strlit("HLEN");
    reveal_strlit("HEXISTS");
    reveal_strlit("SADD");
    reveal_strlit("SREM");
    reveal_strlit("SISMEMBER");
    reveal_strlit("SMEMBERS");
    reveal_strlit("SCARD");
    reveal_strlit("ZADD");
    reveal_strlit("ZSCORE");
    reveal_strlit("ZRANGE");
    reveal_strlit("ZRANGEBYSCORE");
    reveal_strlit("ZREM");
    reveal_strlit("ZCARD");
    reveal_strlit("LPUSH");
    reveal_strlit("RPUSH");
    reveal_strlit("LPOP");
    reveal_strlit("RPOP");
    reveal_strlit("LRANGE");
    reveal_strlit("LLEN");
    reveal_strlit("DBSIZE");
    reveal_strlit("RAWCOUNT");
    reveal_strlit("COMPACT");
    encode_utf8_decode_utf8("PING"@);
    encode_utf8_decode_utf8("ECHO"@);
    encode_utf8_decode_utf8("SET"@);
    encode_utf8_decode_utf8("GET"@);
    encode_utf8_decode_utf8("DEL"@);
    encode_utf8_decode_utf8("EXISTS"@);
    encode_utf8_decode_utf8("TYPE"@);
    encode_utf8_decode_utf8("EXPIRE"@);
    encode_utf8_decode_utf8("PEXPIRE"@);
    encode_utf8_decode_utf8("TTL"@);
    encode_utf8_decode_utf8("PTTL"@);
    encode_utf8_decode_utf8("HSET"@);
    encode_utf8_decode_utf8("HMSET"@);
    encode_utf8_decode_utf8("HGET"@);
    encode_utf8_decode_utf8("HMGET"@);
    encode_utf8_decode_utf8("HGETALL"@);
    encode_utf8_decode_utf8("HDEL"@);
    encode_utf8_decode_utf8("HLEN"@);
    encode_utf8_decode_utf8("HEXISTS"@);
    encode_utf8_decode_utf8("SADD"@);
    encode_utf8_decode_utf8("SREM"@);
    encode_utf8_decode_utf8("SISMEMBER"@);
    encode_utf8_decode_utf8("SMEMBERS"@);
    encode_utf8_decode_utf8("SCARD"@);
    encode_utf8_decode_utf8("ZADD"@);
    encode_utf8_decode_utf8("ZSCORE"@);
    encode_utf8_decode_utf8("ZRANGE"@);
    encode_utf8_decode_utf8("ZRANGEBYSCORE"@);
    encode_utf8_decode_utf8("ZREM"@);
    encode_utf8_decode_utf8("ZCARD"@);
    encode_utf8_decode_utf8("LPUSH"@);
    encode_utf8_decode_utf8("RPUSH"@);
    encode_utf8_decode_utf8("LPOP"@);
    encode_utf8_decode_utf8("RPOP"@);
    encode_utf8_decode_utf8("LRANGE"@);
    encode_utf8_decode_utf8("LLEN"@);
    encode_utf8_decode_utf8("DBSIZE"@);
    encode_utf8_decode_utf8("RAWCOUNT"@);
    encode_utf8_decode_utf8("COMPACT"@);
    assert("PING"@[1] == 'I');
    assert("EXISTS"@[2] == 'I');
    assert("EXPIRE"@[2] == 'P');
    assert("PTTL"@[1] == 'T');
    assert("HSET"@[1] == 'S');
    assert("HMSET"@[2] == 'S');
    assert("HGET"@[1] == 'G');
    assert("HMGET"@[2] == 'G');
    assert("HGETALL"@[1] == 'G');
    assert("HDEL"@[1] == 'D');
    assert("HLEN"@[1] == 'L');
    assert("HEXISTS"@[1] == 'E');
    assert("SADD"@[1] == 'A');
    assert("SREM"@[1] == 'R');
    assert("ZADD"@[1] == 'A');
    assert("ZSCORE"@[1] == 'S');
    assert("ZRANGE"@[1] == 'R');
    assert("ZREM"@[1] == 'R');
    assert("LPOP"@[1] == 'P');
    assert("LLEN"@[1] == 'L');
    assert(holds("PING"@, -1, Command::Ping));
    assert(holds("ECHO"@, 2, Command::Echo));
    assert(holds("SET"@, -3, Command::SetValue));
    assert(holds("GET"@, 2, Command::Get));
    assert(holds("DEL"@, -2, Command::Del));
    assert(holds("EXISTS"@, -2, Command::Exists));
    assert(holds("TYPE"@, 2, Command::Type));
    assert(holds("EXPIRE"@, 3, Command::Expire));
    assert(holds("PEXPIRE"@, 3, Command::Pexpire));
    assert(holds("TTL"@, 2, Command::Ttl));
    assert(holds("PTTL"@, 2, Command::Pttl));
    assert(holds("HSET"@, -4, Command::Hset));
    assert(holds("HMSET"@, -4, Command::Hset));
    assert(holds("HGET"@, 3, Command::Hget));
    assert(holds("HMGET"@, -3, Command::Hmget));
    assert(holds("HGETALL"@, 2, Command::Hgetall));
    assert(holds("HDEL"@, -3, Command::Hdel));
    assert(holds("HLEN"@, 2, Command::Hlen));
    assert(holds("HEXISTS"@, 3, Command::Hexists));
    assert(holds("SADD"@, -3, Command::Sadd));
    assert(holds("SREM"@, -3, Command::Srem));
    assert(holds("SISMEMBER"@, 3, Command::Sismember));
    assert(holds("SMEMBERS"@, 2, Command::Smembers));
    assert(holds("SCARD"@, 2, Command::Scard));
    assert(holds("ZADD"@, -4, Command::Zadd));
    assert(holds("ZSCORE"@, 3, Command::Zscore));
    assert(holds("ZRANGE"@, -4, Command::Zrange));
    assert(holds("ZRANGEBYSCORE"@, -4, Command::Zrangebyscore));
    assert(holds("ZREM"@, -3, Command::Zrem));
    assert(holds("ZCARD"@, 2, Command::Zcard));
    assert(holds("LPUSH"@, -3, Command::Push));
    assert(holds("RPUSH"@, -3, Command::Push));
    assert(holds("LPOP"@, -2, Command::Pop));
    assert(holds("RPOP"@, -2, Command::Pop));
    assert(holds("LRANGE"@, 4, Command::Lrange));
    assert(holds("LLEN"@, 2, Command::Llen));
    assert(holds("DBSIZE"@, 1, Command::Dbsize));
    assert(holds("RAWCOUNT"@, 1, Command::Rawcount));
    assert(holds("COMPACT"@, 1, Command::Compact));
}

/// Each command is found under its name, and takes as many arguments as it needs.
pub proof fn requests_find_their_commands()
    ensures
        takes_at_least("PING"@, 1, Command::Ping),
        takes("ECHO"@, 2, Command::Echo),
        takes_at_least("SET"@, 3, Command::SetValue),
        takes("GET"@, 2, Command::Get),
        takes_at_least("DEL"@, 2, Command::Del),
        takes_at_least("EXISTS"@, 2, Command::Exists),
        takes("TYPE"@, 2, Command::Type),
        takes("EXPIRE"@, 3, Command::Expire),
        takes("PEXPIRE"@, 3, Command::Pexpire),
        takes("TTL"@, 2, Command::Ttl),
        takes("PTTL"@, 2, Command::Pttl),
        takes_at_least("HSET"@, 4, Command::Hset),
        takes_at_least("HMSET"@, 4, Command::Hset),
        takes("HGET"@, 3, Command::Hget),
        takes_at_least("HMGET"@, 3, Command::Hmget),
        takes("HGETALL"@, 2, Command::Hgetall),
        takes_at_least("HDEL"@, 3, Command::Hdel),
        takes("HLEN"@, 2, Command::Hlen),
        takes("HEXISTS"@, 3, Command::Hexists),
        takes_at_least("SADD"@, 3, Command::Sadd),
        takes_at_least("SREM"@, 3, Command::Srem),
        takes("SISMEMBER"@, 3, Command::Sismember),
        takes("SMEMBERS"@, 2, Command::Smembers),
        takes("SCARD"@, 2, Command::Scard),
        takes_at_least("ZADD"@, 4, Command::Zadd),
        takes("ZSCORE"@, 3, Command::Zscore),
        takes_at_least("ZRANGE"@, 4, Command::Zrange),
        takes_at_least("ZRANGEBYSCORE"@, 4, Command::Zrangebyscore),
        takes_at_least("ZREM"@, 3, Command::Zrem),
        takes("ZCARD"@, 2, Command::Zcard),
        takes_at_least("LPUSH"@, 3, Command::Push),
        takes_at_least("RPUSH"@, 3, Command::Push),
        takes_at_least("LPOP"@, 2, Command::Pop),
        takes_at_least("RPOP"@, 2, Command::Pop),
        takes("LRANGE"@, 4, Command::Lrange),
        takes("LLEN"@, 2, Command::Llen),
        takes("DBSIZE"@, 1, Command::Dbsize),
        takes("RAWCOUNT"@, 1, Command::Rawcount),
        takes("COMPACT"@, 1, Command::Compact),
{
    names_are_held();
}

/// The name of a command, in capital letters.
pub open spec fn is_a_name(name: Seq<u8>) -> bool {
    ||| name == encode_utf8("PING"@)
    ||| name == encode_utf8("ECHO"@)
    ||| name == encode_utf8("SET"@)
    ||| name == encode_utf8("GET"@)
    ||| name == encode_utf8("DEL"@)
    ||| name == encode_utf8("EXISTS"@)
    ||| name == encode_utf8("TYPE"@)
    ||| name == encode_utf8("EXPIRE"@)
    ||| name == encode_utf8("PEXPIRE"@)
    ||| name == encode_utf8("TTL"@)
    ||| name == encode_utf8("PTTL"@)
    ||| name == encode_utf8("HSET"@)
    ||| name == encode_utf8("HMSET"@)
    ||| name == encode_utf8("HGET"@)
    ||| name == encode_utf8("HMGET"@)
    ||| name == encode_utf8("HGETALL"@)
    ||| name == encode_utf8("HDEL"@)
    ||| name == encode_utf8("HLEN"@)
    ||| name == encode_utf8("HEXISTS"@)
    ||| name == encode_utf8("SADD"@)
    ||| name == encode_utf8("SREM"@)
    ||| name == encode_utf8("SISMEMBER"@)
    ||| name == encode_utf8("SMEMBERS"@)
    ||| name == encode_utf8("SCARD"@)
    ||| name == encode_utf8("ZADD"@)
    ||| name == encode_utf8("ZSCORE"@)
    ||| name == encode_utf8("ZRANGE"@)
    ||| name == encode_utf8("ZRANGEBYSCORE"@)
    ||| name == encode_utf8("ZREM"@)
    ||| name == encode_utf8("ZCARD"@)
    ||| name == encode_utf8("LPUSH"@)
    ||| name == encode_utf8("RPUSH"@)
    ||| name == encode_utf8("LPOP"@)
    ||| name == encode_utf8("RPOP"@)
    ||| name == encode_utf8("LRANGE"@)
    ||| name == encode_utf8("LLEN"@)
    ||| name == encode_utf8("DBSIZE"@)
    ||| name == encode_utf8("RAWCOUNT"@)
    ||| name == encode_utf8("COMPACT"@)
}

/// There are no other commands.
pub proof fn no_other_commands(name: Seq<u8>)
    ensures
        standard_commands().contains_key(name) == is_a_name(name),
{
    names_are_held();
}

/// Where the engine does not fail, a request is answered as its command says; one whose name is
/// unknown, or whose number of arguments is wrong, is answered with an error that says so and
/// changes nothing.
pub proof fn requests_are_answered_by_their_commands<E: GeneralEngine>(
    version: RespVersion,
    args: Seq<Seq<u8>>,
    before: StoreView,
    times: Seq<Now>,
    after: StoreView,
    reply: FrameView,
    failures: Failures,
)
    requires
        dispatches::<E, Command>(
            standard_commands(),
            version,
            args,
            before,
            times,
            after,
            reply,
            failures,
        ),
        forall|e: EngineErrorView| !failures.contains(e),
    ensures
        args.len() == 0 ==> (after, reply) == (before, FrameView::Error("ERR empty command"@)),
        args.len() > 0 && !standard_commands().contains_key(upper_all(args[0])) ==> (after, reply)
            == (
            before,
            FrameView::Error("ERR unknown command '"@ + shown_text(args[0]) + "'"@),
        ),
        args.len() > 0 && standard_commands().contains_key(upper_all(args[0])) ==> {
            let found = standard_commands()[upper_all(args[0])];
            &&& arity_fits(found.arity, args.len()) ==> (after, reply) == command_op(
                found.handler,
                version,
                args,
                before,
                times,
            )
            &&& !arity_fits(found.arity, args.len()) ==> (after, reply) == (
                before,
                FrameView::Error(
                    "ERR wrong number of arguments for '"@ + ascii(
                        lower_all(upper_all(args[0])),
                    ) + "' command"@,
                ),
            )
        },
{
}

} // verus!
