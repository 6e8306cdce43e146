# openpgp_stream

A Verus library that makes OpenPGP messages (RFC 9580) as streams: signed,
encrypted, compressed and ASCII armored, in any sensible nesting.

A message is a stack of writers.  The writers are put on the stack by the
builders in `stream`; data is written to the topmost one, and is transformed on
its way down to the sink.

    let message = Message::new(Vec::new());
    let message = Armorer::new(message).build()?;
    let message = Encryptor::for_recipients(message, recipients).build()?;
    let message = Signer::new(message, signer)?.build()?;
    let mut message = LiteralWriter::new(message).build()?;
    message.write_all(b"Hello world.")?;
    let octets = message.finalize()?;

Every function of the library carries a contract that Verus proves.  What the
stack does is stated over a mathematical model of its writers (`stack`), and
`laws` and the modules beside it hold what follows for whole messages.

| Module | Content |
| --- | --- |
| `stream`, `signer`, `encryptor` | the builders that put writers on the stack |
| `stack`, `signing` | the stack, its writers, and how they are finalized |
| `laws` | what holds of all messages |
| `readback`, `signed`, `opening`, `messages` | what is left of finalized writers, of signed and of encrypted messages, and what is read out of it |
| `framing` | packet headers, and bodies of unknown length |
| `armor`, `textfilter`, `compression`, `cipher` | what writers do to the data |
| `signature`, `esk` | signature packets, and packets that hold session keys |
| `pk`, `ecdh` | encrypting session keys for recipients |
| `hashing`, `crypto`, `key`, `types`, `bytes`, `error` | what the others are built on |
| `backend` | calls into OpenSSL, the compression libraries and the clock |

The contracts in `backend` are taken on trust; each says which outside function
it is about.  Signers implement the trait `crypto::Signer`.

`app` connects the stack to the writers of the standard library.
