//! The arguments of the program.
use vstd::prelude::*;
use vstd::utf8::encode_utf8;

use crate::common::config::{Config, ConfigView};
use crate::text::{join2, read_uint, same_text, uint_value};

verus! {

/// What the arguments say, each in place of what the configuration says.
#[derive(Debug, Clone)]
pub struct Args {
    /// The configuration file.
    pub config: Option<String>,
    /// The address to listen at.
    pub bind: Option<String>,
    /// The port to listen at.
    pub port: Option<u16>,
    /// The directory that holds the data.
    pub data_dir: Option<String>,
}

/// [`Args`] with their texts as characters.
#[verifier::ext_equal]
pub struct ArgsView {
    pub config: Option<Seq<char>>,
    pub bind: Option<Seq<char>>,
    pub port: Option<u16>,
    pub data_dir: Option<Seq<char>>,
}

/// A text that may be missing, as characters.
pub open spec fn text_view(t: Option<String>) -> Option<Seq<char>> {
    match t {
        Some(s) => Some(s@),
        None => None,
    }
}

impl View for Args {
    type V = ArgsView;

    open spec fn view(&self) -> ArgsView {
        ArgsView {
            config: text_view(self.config),
            bind: text_view(self.bind),
            port: self.port,
            data_dir: text_view(self.data_dir),
        }
    }
}

/// What to do about the arguments.
#[derive(Debug)]
pub enum Parsed {
    /// Run with them.
    Run(Args),
    /// Print how the program is used.
    Help,
    /// Say what is wrong with them.
    Bad(String),
}

/// [`Parsed`] with its texts as characters.
#[verifier::ext_equal]
pub enum ParsedView {
    Run(ArgsView),
    Help,
    Bad(Seq<char>),
}

impl View for Parsed {
    type V = ParsedView;

    open spec fn view(&self) -> ParsedView {
        match self {
            Parsed::Run(args) => ParsedView::Run(args@),
            Parsed::Help => ParsedView::Help,
            Parsed::Bad(text) => ParsedView::Bad(text@),
        }
    }
}

/// What the arguments say behind those that were read: an option takes the argument behind it, a
/// later one in place of an earlier, and without one behind it is unknown.
pub open spec fn parsed(argv: Seq<Seq<char>>, args: ArgsView) -> ParsedView
    decreases argv.len(),
{
    if argv.len() == 0 {
        ParsedView::Run(args)
    } else if argv[0] == "--config"@ && argv.len() > 1 {
        parsed(argv.skip(2), ArgsView { config: Some(argv[1]), ..args })
    } else if argv[0] == "--bind"@ && argv.len() > 1 {
        parsed(argv.skip(2), ArgsView { bind: Some(argv[1]), ..args })
    } else if argv[0] == "--port"@ && argv.len() > 1 {
        match uint_value(encode_utf8(argv[1]), u16::MAX as u64) {
            Some(n) => parsed(argv.skip(2), ArgsView { port: Some(n as u16), ..args }),
            None => ParsedView::Bad("invalid --port"@),
        }
    } else if argv[0] == "--data-dir"@ && argv.len() > 1 {
        parsed(argv.skip(2), ArgsView { data_dir: Some(argv[1]), ..args })
    } else if argv[0] == "-h"@ || argv[0] == "--help"@ {
        ParsedView::Help
    } else {
        ParsedView::Bad("unknown argument: "@ + argv[0])
    }
}

/// No arguments.
pub open spec fn no_args() -> ArgsView {
    ArgsView { config: None, bind: None, port: None, data_dir: None }
}

/// The characters of several texts.
pub open spec fn texts(v: Seq<String>) -> Seq<Seq<char>> {
    v.map_values(|s: String| s@)
}

/// Reads the arguments behind the name of the program.
pub fn parse_args(argv: &[String]) -> (r: Parsed)
    ensures
        r@ == parsed(texts(argv@), no_args()),
{
    let ghost all = texts(argv@);
    let mut args = Args { config: None, bind: None, port: None, data_dir: None };
    let mut i: usize = 0;
    assert(all.skip(0) =~= all);
    while i < argv.len()
        invariant
            i <= argv@.len(),
            all == texts(argv@),
            parsed(all, no_args()) == parsed(all.skip(i as int), args@),
        decreases argv@.len() - i,
    {
        let ghost rest = all.skip(i as int);
        let ghost was = args@;
        assert(rest[0] == argv@[i as int]@);
        let name = &argv[i];
        let more = i + 1 < argv.len();
        proof {
            if more {
                assert(rest[1] == argv@[i + 1]@);
                assert(rest.skip(2) =~= all.skip(i + 2));
            }
        }
        if more && same_text(name, "--config") {
            args.config = Some(argv[i + 1].clone());
            assert(args@ =~= ArgsView { config: Some(rest[1]), ..was });
        } else if more && same_text(name, "--bind") {
            args.bind = Some(argv[i + 1].clone());
            assert(args@ =~= ArgsView { bind: Some(rest[1]), ..was });
        } else if more && same_text(name, "--port") {
            match read_uint(argv[i + 1].as_str().as_bytes(), u16::MAX as u64) {
                Some(n) => {
                    args.port = Some(n as u16);
                    assert(args@ =~= ArgsView { port: Some(n as u16), ..was });
                },
                None => return Parsed::Bad("invalid --port".to_owned()),
            }
        } else if more && same_text(name, "--data-dir") {
            args.data_dir = Some(argv[i + 1].clone());
            assert(args@ =~= ArgsView { data_dir: Some(rest[1]), ..was });
        } else if same_text(name, "-h") || same_text(name, "--help") {
            return Parsed::Help;
        } else {
            return Parsed::Bad(join2("unknown argument: ", name));
        }
        i += 2;
    }
    assert(all.skip(i as int) =~= Seq::<Seq<char>>::empty());
    Parsed::Run(args)
}

/// A configuration with what the arguments say in place of what it said.
pub open spec fn with_args(c: ConfigView, args: ArgsView) -> ConfigView {
    ConfigView {
        server_bind: match args.bind {
            Some(bind) => bind,
            None => c.server_bind,
        },
        server_port: match args.port {
            Some(port) => port,
            None => c.server_port,
        },
        data_dir: match args.data_dir {
            Some(dir) => dir,
            None => c.data_dir,
        },
        ..c
    }
}

/// Puts what the arguments say in place of what the configuration said.
pub fn apply_args(config: &mut Config, args: &Args)
    ensures
        final(config)@ == with_args(old(config)@, args@),
{
    if let Some(bind) = &args.bind {
        config.server.bind = bind.clone();
    }
    if let Some(port) = args.port {
        config.server.port = port;
    }
    if let Some(dir) = &args.data_dir {
        config.storage.data_dir = dir.clone();
    }
    assert(config@ =~= with_args(old(config)@, args@));
}

/// How the program is used.
pub const USAGE: &'static str =
    "gamestore-datanode [--config PATH] [--bind ADDR] [--port PORT] [--data-dir DIR]\n\nSingle-node GameStore DataNode (I-05): RESP2/RESP3 server with the\nString/Hash/TTL command set persisted to RocksDB under --data-dir.";

} // verus!
