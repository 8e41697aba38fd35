# starkeeper

The verified core of the Starkeeper Media first-run setup and its Steam
artwork loader, written in Verus.

- `src/text.rs`: characters, decimal rendering, Unicode-whitespace trimming.
- `src/openid.rs`: percent-encoding, the Steam sign-in redirect, the OpenID
  callback parameters and the `check_authentication` request and reply.
- `src/pages.rs`: the HTML pages of the setup server.
- `src/setup.rs`: the setup flow (sign-in, then the Web API key).
- `src/dotenv.rs`: reading `.env` and writing the credentials into it, with
  the proof that saved credentials load back.
- `src/vdf.rs`: app-info documents (VDF) and the artwork addresses in them;
  parsing is done by `keyvalues-parser`.
- `src/logos.rs`: the artwork loader's decisions for each batch of apps.

`app/` holds the I/O around it: the axum setup server, the `.env` file on
disk and in the environment, and the loader loop with SQLite and Steam.
