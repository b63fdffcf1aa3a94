# nautilus_accounting

Exchange rates between currencies and the aggregation of account balances and margins,
verified with Verus.

- `src/decimal.rs`: decimals as mantissa and scale, and the `rust_decimal` arithmetic on them.
- `src/text.rs`: currency codes and market symbols (`AUD/USD`) as characters.
- `src/xrate.rs`: the rate table built from bid, ask or mid quotes, completed with inverse
  rates and with rates through common currencies, and `get_exchange_rate`.
- `src/xrate_laws.rs`: properties of that computation over all quotes.
- `src/accounts.rs`: which exchange rate an account update needs, which orders and positions
  count, and how their amounts add up in the account's currency.
- `app/`: the account manager and the exchange-rate entry point over the nautilus model types,
  which read the model values and call the library.
