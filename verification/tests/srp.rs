use openplay::pairing::srp::{SrpClient, MAX_SALT_LEN, MAX_SERVER_PUBLIC_LEN, TRANSIENT_PASSWORD, USERNAME};
use openplay::Error;
use sha2::Sha512;
use srp::client::SrpClient as Registration;
use srp::groups::G_3072;
use srp::server::SrpServer;

const SALT: &[u8] = b"transient-salt!";
const SERVER_SECRET: &[u8] = b"receiver ephemeral secret value";

fn receiver_challenge() -> (SrpServer<'static, Sha512>, Vec<u8>, Vec<u8>) {
    let registration = Registration::<Sha512>::new(&G_3072);
    let password_verifier =
        registration.compute_verifier(USERNAME.as_bytes(), TRANSIENT_PASSWORD.as_bytes(), SALT);
    let server = SrpServer::<Sha512>::new(&G_3072);
    let server_public = server.compute_public_ephemeral(SERVER_SECRET, &password_verifier);

    (server, password_verifier, server_public)
}

#[test]
fn completes_round_trip_and_agrees_on_session_key() {
    let (server, password_verifier, server_public) = receiver_challenge();
    let mut client = SrpClient::new();
    let (client_public, client_proof) = client
        .process_challenge(USERNAME.as_bytes(), TRANSIENT_PASSWORD.as_bytes(), SALT, &server_public)
        .expect("client processes M2");
    let server_verifier = server
        .process_reply(SERVER_SECRET, &password_verifier, &client_public)
        .expect("server processes M3 public value");
    server_verifier
        .verify_client(&client_proof)
        .expect("server verifies M3 proof");
    let server_key = server_verifier.key().to_vec();
    let client_key = client
        .verify_server(server_verifier.proof())
        .expect("client verifies M4 proof");

    assert_eq!(client_key, server_key);
}

#[test]
fn rejects_corrupted_server_proof() {
    let (_, _, server_public) = receiver_challenge();
    let mut client = SrpClient::new();
    client
        .process_challenge(USERNAME.as_bytes(), TRANSIENT_PASSWORD.as_bytes(), SALT, &server_public)
        .expect("client processes M2");

    assert!(client.verify_server(&[0_u8; 64]).is_err());
}

#[test]
fn rejects_zero_server_public_value() {
    let mut client = SrpClient::new();

    let error = client
        .process_challenge(USERNAME.as_bytes(), TRANSIENT_PASSWORD.as_bytes(), SALT, &[0_u8; 384])
        .expect_err("zero B must be rejected");
    assert!(matches!(error, Error::Pairing(_)));
}

#[test]
fn rejects_oversized_server_public_before_touching_bignum_code() {
    let mut client = SrpClient::new();
    let huge = vec![1_u8; MAX_SERVER_PUBLIC_LEN + 1];

    let error = client
        .process_challenge(USERNAME.as_bytes(), TRANSIENT_PASSWORD.as_bytes(), SALT, &huge)
        .expect_err("oversized B must be rejected");
    assert!(matches!(error, Error::Pairing(_)));
}

#[test]
fn rejects_empty_and_oversized_salt() {
    let mut client = SrpClient::new();
    let (_, _, server_public) = receiver_challenge();

    assert!(client
        .process_challenge(USERNAME.as_bytes(), TRANSIENT_PASSWORD.as_bytes(), b"", &server_public)
        .is_err());
    let huge_salt = vec![1_u8; MAX_SALT_LEN + 1];
    assert!(client
        .process_challenge(USERNAME.as_bytes(), TRANSIENT_PASSWORD.as_bytes(), &huge_salt, &server_public)
        .is_err());
}

#[test]
fn draws_a_fresh_ephemeral_on_every_challenge() {
    let (_, _, server_public) = receiver_challenge();
    let mut client = SrpClient::new();
    let first_secret = client.ephemeral();

    client
        .process_challenge(USERNAME.as_bytes(), TRANSIENT_PASSWORD.as_bytes(), SALT, &server_public)
        .expect("first challenge succeeds");
    let second_secret = client.ephemeral();

    // A retried challenge on the same client must not reuse the ephemeral
    // exponent from construction or from the previous attempt.
    assert_ne!(first_secret, second_secret);

    client
        .process_challenge(USERNAME.as_bytes(), TRANSIENT_PASSWORD.as_bytes(), SALT, &server_public)
        .expect("second challenge succeeds");
    let third_secret = client.ephemeral();
    assert_ne!(second_secret, third_secret);
}

fn pairing_message<T>(r: Result<T, Error>) -> String {
    match r {
        Err(Error::Pairing(m)) => m,
        _ => panic!("expected a pairing error"),
    }
}

#[test]
fn srp_errors_have_their_messages() {
    let (_, _, server_public) = receiver_challenge();
    let mut client = SrpClient::new();
    assert_eq!(pairing_message(client.verify_server(&[1])), "srp: no challenge has been processed");
    assert_eq!(
        pairing_message(client.process_challenge(b"u", b"p", SALT, &[])),
        "srp: server public value has invalid length 0"
    );
    assert_eq!(
        pairing_message(client.process_challenge(b"u", b"p", &[0; 300], &server_public)),
        "srp: salt has invalid length 300"
    );
    assert_eq!(
        pairing_message(client.process_challenge(b"u", b"p", SALT, &[0; 384])),
        "srp: illegal_parameter: bad 'b_pub' value"
    );
    client
        .process_challenge(USERNAME.as_bytes(), TRANSIENT_PASSWORD.as_bytes(), SALT, &server_public)
        .expect("challenge");
    assert_eq!(
        pairing_message(client.verify_server(&[0; 64])),
        "srp: bad_record_mac: incorrect 'server'  proof"
    );
    // A failed retry drops the exchange that succeeded before it.
    assert!(client.process_challenge(b"u", b"p", b"", &server_public).is_err());
    assert_eq!(pairing_message(client.verify_server(&[1])), "srp: no challenge has been processed");
}

#[test]
fn client_public_value_is_g_to_the_secret() {
    let (_, _, server_public) = receiver_challenge();
    let mut client = SrpClient::new();
    let (public, proof) = client
        .process_challenge(USERNAME.as_bytes(), TRANSIENT_PASSWORD.as_bytes(), SALT, &server_public)
        .expect("challenge");
    let expected = Registration::<Sha512>::new(&G_3072).compute_public_ephemeral(&client.ephemeral());
    assert_eq!(public, expected);
    assert_eq!(proof.len(), 64);
}

#[test]
fn answering_with_a_given_secret_keeps_it() {
    let (server, password_verifier, server_public) = receiver_challenge();
    let secret = [7u8; 32];
    let mut client = SrpClient::new();
    let (public, proof) = client
        .answer_challenge(secret, USERNAME.as_bytes(), TRANSIENT_PASSWORD.as_bytes(), SALT, &server_public)
        .expect("challenge");
    assert_eq!(client.ephemeral(), secret);
    let expected = Registration::<Sha512>::new(&G_3072).compute_public_ephemeral(&secret);
    assert_eq!(public, expected);
    let server_verifier = server
        .process_reply(SERVER_SECRET, &password_verifier, &public)
        .expect("server processes M3 public value");
    server_verifier.verify_client(&proof).expect("server verifies M3 proof");
    assert!(client.verify_server(server_verifier.proof()).is_ok());
    let error = client
        .answer_challenge(secret, USERNAME.as_bytes(), TRANSIENT_PASSWORD.as_bytes(), SALT, &[0u8; 3])
        .expect_err("zero B must be rejected");
    assert_eq!(pairing_message::<()>(Err(error)), "srp: illegal_parameter: bad 'b_pub' value");
    assert_eq!(client.ephemeral(), secret);
}
