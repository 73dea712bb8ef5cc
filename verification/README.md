# gpg_wrapper

The logic of a small desktop front end for GnuPG, written in Verus and
verified against its contracts.

- `src/text.rs`: character-level model and operations (lines, fields,
  trimming, search, replacement, joining).
- `src/colon.rs`: `gpg --with-colons` listings: escaped field decoding, the
  secret fingerprints, the public keys.
- `src/armor.rs`: rebuilding an ASCII-armored public key block whose line
  endings arrived as literal escape sequences.
- `src/display.rs`: user ids, shortened fingerprints, decimal numbers.
- `src/choices.rs`: the user's choices and their labels.
- `src/command.rs`: what a finished `gpg` run means.
- `src/session.rs`: the key manager's state, what each action asks of `gpg`
  and how the state changes with the answer.
- `app/main.rs`: the egui window, the `gpg` processes, clipboard and file
  dialogs.
